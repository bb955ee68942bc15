//! Watch subscriptions: `(connection, node-or-sentinel, token)`
//! triples. Applied changes are matched against the set — an exact
//! path match re-checked against the watcher's read permission, or a
//! sentinel matched by its pseudo-event — and each subscription fires
//! at most once per batch.

use vstd::prelude::*;
use vstd::string::StringExecFns;
use vstd::string::StringSliceAdditionalSpecFns;
use crate::connection::ConnId;
use crate::error::Error;
use crate::path::{Path, PathView, path_str_ok, path_wf, spec_parse_path};
use crate::store::{AppliedChange, AppliedChangeView, spec_applied_perms_ok, PERM_READ};
use crate::text::{str_chars, chars_eq, str_eq};
use crate::wire::DomainId;

verus! {

/// What a watch listens on: a node path, or one of the two sentinel
/// pseudo-events.
#[derive(Clone, Debug, Eq, Hash, PartialEq)]
pub enum WPath {
    Normal(Path),
    IntroduceDomain,
    ReleaseDomain,
}

/// The mathematical value of a watch pattern.
#[verifier::ext_equal]
pub enum WPathView {
    Normal(PathView),
    IntroduceDomain,
    ReleaseDomain,
}

impl View for WPath {
    type V = WPathView;

    open spec fn view(&self) -> WPathView {
        match *self {
            WPath::Normal(ref p) => WPathView::Normal(p@),
            WPath::IntroduceDomain => WPathView::IntroduceDomain,
            WPath::ReleaseDomain => WPathView::ReleaseDomain,
        }
    }
}

impl WPath {
    /// Parses a watch pattern: one of the two sentinel names, or a
    /// path string for `dom_id`.
    pub fn try_from(dom_id: DomainId, s: &str) -> (r: Result<WPath, Error>)
        ensures
            s@ == "@introduceDomain"@ ==> (r matches Ok(w) && w@ == WPathView::IntroduceDomain),
            s@ == "@releaseDomain"@ ==> (r matches Ok(w) && w@ == WPathView::ReleaseDomain),
            (s@ != "@introduceDomain"@ && s@ != "@releaseDomain"@) ==> {
                &&& (r is Ok <==> path_str_ok(s@, (s.spec_bytes().len() as usize) as int))
                &&& (r matches Ok(w) ==> (w@ == WPathView::Normal(spec_parse_path(dom_id, s@))
                    && path_wf(spec_parse_path(dom_id, s@))))
            },
            r matches Err(e) ==> e is EINVAL,
    {
        proof {
            reveal_strlit("@introduceDomain");
            reveal_strlit("@releaseDomain");
            assert("@introduceDomain"@.len() != "@releaseDomain"@.len());
        }
        if str_eq(s, "@introduceDomain") {
            Ok(WPath::IntroduceDomain)
        } else if str_eq(s, "@releaseDomain") {
            Ok(WPath::ReleaseDomain)
        } else {
            match Path::try_from(dom_id, s) {
                Ok(p) => Ok(WPath::Normal(p)),
                Err(e) => Err(e),
            }
        }
    }

    /// An owned copy of this pattern.
    pub fn duplicate(&self) -> (r: WPath)
        ensures
            r@ == self@,
    {
        match *self {
            WPath::Normal(ref p) => WPath::Normal(p.duplicate()),
            WPath::IntroduceDomain => WPath::IntroduceDomain,
            WPath::ReleaseDomain => WPath::ReleaseDomain,
        }
    }

    /// Whether two patterns are the same.
    pub fn same_as(&self, other: &WPath) -> (r: bool)
        ensures
            r == (self@ == other@),
    {
        match (self, other) {
            (WPath::Normal(a), WPath::Normal(b)) => a.same_as(b),
            (WPath::IntroduceDomain, WPath::IntroduceDomain) => true,
            (WPath::ReleaseDomain, WPath::ReleaseDomain) => true,
            _ => false,
        }
    }
}

/// A subscription: the owning connection, the pattern it listens on,
/// and the opaque token echoed back in every event.
#[derive(Clone, Debug, Eq, Hash, PartialEq)]
pub struct Watch {
    pub conn: ConnId,
    pub node: WPath,
    pub token: String,
}

/// The mathematical value of a subscription.
#[verifier::ext_equal]
pub struct WatchView {
    pub conn: ConnId,
    pub node: WPathView,
    pub token: Seq<char>,
}

impl View for Watch {
    type V = WatchView;

    open spec fn view(&self) -> WatchView {
        WatchView { conn: self.conn, node: self.node@, token: self.token@ }
    }
}

impl DeepView for Watch {
    type V = WatchView;

    open spec fn deep_view(&self) -> WatchView {
        self@
    }
}

/// Whether a subscription fires for a commit record: an exact path
/// match whose permissions still let the watcher read, or the
/// matching sentinel.
pub open spec fn spec_watch_matches(w: WatchView, c: AppliedChangeView) -> bool {
    match (c, w.node) {
        (AppliedChangeView::Write(p, perms), WPathView::Normal(wp)) => p == wp
            && spec_applied_perms_ok(c, w.conn.dom_id, PERM_READ),
        (AppliedChangeView::IntroduceDomain, WPathView::IntroduceDomain) => true,
        (AppliedChangeView::ReleaseDomain, WPathView::ReleaseDomain) => true,
        _ => false,
    }
}

/// Whether any record of a batch fires the subscription.
pub open spec fn spec_any_match(w: WatchView, batch: Seq<AppliedChangeView>) -> bool {
    exists|i: int| 0 <= i < batch.len() && spec_watch_matches(w, #[trigger] batch[i])
}

impl Watch {
    /// Builds the subscription triple.
    pub fn new(conn: ConnId, node: WPath, token: String) -> (r: Watch)
        ensures
            r@ == (WatchView { conn, node: node@, token: token@ }),
    {
        Watch { conn, node, token }
    }

    /// An owned copy of this subscription.
    pub fn duplicate(&self) -> (r: Watch)
        ensures
            r@ == self@,
    {
        Watch {
            conn: self.conn,
            node: self.node.duplicate(),
            token: crate::path::duplicate_string(&self.token),
        }
    }

    /// Whether two subscriptions are the same triple.
    pub fn same_as(&self, other: &Watch) -> (r: bool)
        ensures
            r == (self@ == other@),
    {
        if !(self.conn.token == other.conn.token && self.conn.dom_id == other.conn.dom_id) {
            proof {
                assert(self@.conn != other@.conn);
            }
            return false;
        }
        if !self.node.same_as(&other.node) {
            return false;
        }
        let ta = str_chars(self.token.as_str());
        let tb = str_chars(other.token.as_str());
        let r = chars_eq(&ta, &tb);
        proof {
            if r {
                assert(self@ =~= other@);
            }
        }
        r
    }

    /// Whether this subscription fires for `change`.
    pub fn matches(&self, change: &AppliedChange) -> (r: bool)
        ensures
            r == spec_watch_matches(self@, change@),
    {
        match (change, &self.node) {
            (AppliedChange::Write(cpath, _), WPath::Normal(wpath)) => {
                let same = cpath.same_as(wpath);
                same && change.perms_ok(self.conn.dom_id, PERM_READ)
            }
            (AppliedChange::IntroduceDomain, WPath::IntroduceDomain) => true,
            (AppliedChange::ReleaseDomain, WPath::ReleaseDomain) => true,
            _ => false,
        }
    }
}

/// Keeping exactly the subscriptions another connection owns.
pub open spec fn keeps_watch(conn: ConnId) -> spec_fn(Watch) -> bool {
    |w: Watch| w@.conn != conn
}

/// The set of live subscriptions.
pub struct WatchList {
    pub watches: Vec<Watch>,
}

impl WatchList {
    /// The live subscriptions.
    pub open spec fn view_list(&self) -> Seq<WatchView> {
        self.watches.deep_view()
    }

    /// No two entries hold the same triple.
    pub open spec fn inv(&self) -> bool {
        forall|i: int, j: int|
            0 <= i < j < self.view_list().len() ==> (#[trigger] self.view_list()[i]) != (
            #[trigger] self.view_list()[j])
    }

    /// An empty set of subscriptions.
    pub fn new() -> (r: WatchList)
        ensures
            r.inv(),
            r.view_list() == Seq::<WatchView>::empty(),
    {
        let r = WatchList { watches: Vec::new() };
        proof {
            assert(r.view_list() =~= Seq::<WatchView>::empty());
        }
        r
    }

    /// The index of the exact triple, if present.
    fn position(&self, w: &Watch) -> (r: Option<usize>)
        ensures
            r matches Some(i) ==> (i < self.view_list().len() && self.view_list()[i as int] == w@
                && self.view_list().contains(w@)),
            r is None ==> !self.view_list().contains(w@),
    {
        let ghost ws = self.view_list();
        let mut i: usize = 0;
        let n = self.watches.len();
        while i < n
            invariant
                i <= n,
                n == ws.len(),
                ws == self.view_list(),
                forall|j: int| 0 <= j < i ==> ws[j] != w@,
            decreases n - i,
        {
            proof {
                assert(self.watches@[i as int].deep_view() == ws[i as int]);
            }
            if self.watches[i].same_as(w) {
                return Some(i);
            }
            i = i + 1;
        }
        proof {
            if ws.contains(w@) {
                let j = choose|j: int| 0 <= j < ws.len() && ws[j] == w@;
                assert(false);
            }
        }
        None
    }

    /// Registers a subscription; an identical triple may be
    /// registered only once, a second try fails with `EEXIST`.
    pub fn watch(&mut self, conn: ConnId, node: WPath, token: String) -> (r: Result<(), Error>)
        requires
            old(self).inv(),
        ensures
            final(self).inv(),
            r is Ok <==> !old(self).view_list().contains(
                WatchView { conn, node: node@, token: token@ },
            ),
            r is Ok ==> final(self).view_list() == old(self).view_list().push(
                WatchView { conn, node: node@, token: token@ },
            ),
            r matches Err(e) ==> (e is EEXIST && final(self).view_list() == old(
                self,
            ).view_list()),
    {
        let ghost before = self.view_list();
        let w = Watch::new(conn, node, token);
        match self.position(&w) {
            Some(_) => Err(Error::EEXIST(String::from_str("watch already exists"))),
            None => {
                self.watches.push(w);
                proof {
                    assert(self.view_list() =~~= before.push(w@));
                    assert forall|i: int, j: int| 0 <= i < j < self.view_list().len() implies (
                    #[trigger] self.view_list()[i]) != (#[trigger] self.view_list()[j]) by {
                        if j < before.len() {
                            assert(before[i] != before[j]);
                        } else {
                            assert(self.view_list()[j] == w@);
                            assert(!before.contains(w@));
                            assert(before[i] != w@);
                        }
                    }
                }
                Ok(())
            }
        }
    }

    /// Drops the exact triple; `ENOENT` when it was never registered.
    pub fn unwatch(&mut self, conn: ConnId, node: WPath, token: String) -> (r: Result<(), Error>)
        requires
            old(self).inv(),
        ensures
            final(self).inv(),
            r is Ok <==> old(self).view_list().contains(
                WatchView { conn, node: node@, token: token@ },
            ),
            r is Ok ==> (forall|w: WatchView|
                #![trigger final(self).view_list().contains(w)]
                final(self).view_list().contains(w) <==> (old(self).view_list().contains(w) && w
                    != (WatchView { conn, node: node@, token: token@ }))),
            r matches Err(e) ==> (e is ENOENT && final(self).view_list() == old(
                self,
            ).view_list()),
    {
        let ghost before = self.view_list();
        let w = Watch::new(conn, node, token);
        match self.position(&w) {
            Some(i) => {
                self.watches.remove(i);
                proof {
                    assert(self.view_list() =~~= before.remove(i as int));
                    let now = self.view_list();
                    assert forall|a: int, b: int| 0 <= a < b < now.len() implies (
                    #[trigger] now[a]) != (#[trigger] now[b]) by {
                        let ra = if a < i {
                            a
                        } else {
                            a + 1
                        };
                        let rb = if b < i {
                            b
                        } else {
                            b + 1
                        };
                        assert(now[a] == before[ra] && now[b] == before[rb]);
                    }
                    assert forall|x: WatchView|
                        #![trigger now.contains(x)]
                        now.contains(x) <==> (before.contains(x) && x != w@) by {
                        if now.contains(x) {
                            let a = choose|a: int| 0 <= a < now.len() && now[a] == x;
                            let ra = if a < i {
                                a
                            } else {
                                a + 1
                            };
                            assert(before[ra] == x);
                            if x == w@ {
                                assert(before[i as int] == w@);
                                assert(ra != i);
                                assert(false);
                            }
                            assert(before.contains(x));
                        }
                        if before.contains(x) && x != w@ {
                            let a = choose|a: int| 0 <= a < before.len() && before[a] == x;
                            assert(a != i);
                            if a < i {
                                assert(now[a] == x);
                            } else {
                                assert(now[a - 1] == x);
                            }
                            assert(now.contains(x));
                        }
                    }
                }
                Ok(())
            }
            None => Err(Error::ENOENT(String::from_str("watch does not exist"))),
        }
    }

    /// Drops every subscription owned by `conn`; run on teardown.
    pub fn reset(&mut self, conn: ConnId) -> (r: Result<(), Error>)
        requires
            old(self).inv(),
        ensures
            final(self).inv(),
            r is Ok,
            forall|w: WatchView|
                #![trigger final(self).view_list().contains(w)]
                final(self).view_list().contains(w) <==> (old(self).view_list().contains(w)
                    && w.conn != conn),
    {
        let ghost before0 = self.watches@;
        let mut i: usize = 0;
        let ghost mut j: int = 0;
        proof {
            assert(before0.take(0).filter(keeps_watch(conn)) =~= Seq::<Watch>::empty());
            assert(before0.skip(0) =~= before0);
            assert(self.watches@ =~= before0.take(0).filter(keeps_watch(conn)) + before0.skip(0));
        }
        while i < self.watches.len()
            invariant
                0 <= j <= before0.len(),
                old(self).inv(),
                before0 == old(self).watches@,
                self.watches@ == before0.take(j).filter(keeps_watch(conn)) + before0.skip(j),
                i as int == before0.take(j).filter(keeps_watch(conn)).len(),
            decreases before0.len() - j,
        {
            proof {
                before0.take(j).lemma_filter_len(keeps_watch(conn));
                assert(self.watches@[i as int] == before0.skip(j)[0]);
                assert(before0.skip(j)[0] == before0[j]);
                reveal(Seq::filter);
                assert(before0.take(j + 1).drop_last() =~= before0.take(j));
                assert(before0.take(j + 1).last() == before0[j]);
            }
            let owned = self.watches[i].conn.token == conn.token && self.watches[i].conn.dom_id
                == conn.dom_id;
            proof {
                assert(owned == (before0[j]@.conn == conn));
                assert(keeps_watch(conn)(before0[j]) == !owned);
            }
            if owned {
                let ghost lst = self.watches@;
                self.watches.remove(i);
                proof {
                    assert(self.watches@ =~= before0.take(j).filter(keeps_watch(conn))
                        + before0.skip(j + 1)) by {
                        assert(self.watches@ =~= lst.remove(i as int));
                        assert(before0.skip(j).drop_first() =~= before0.skip(j + 1));
                        assert(lst.remove(i as int) =~= before0.take(j).filter(keeps_watch(conn))
                            + before0.skip(j).drop_first());
                    }
                    assert(before0.take(j + 1).filter(keeps_watch(conn)) == before0.take(j).filter(
                        keeps_watch(conn),
                    ));
                }
            } else {
                proof {
                    assert(before0.take(j + 1).filter(keeps_watch(conn)) == before0.take(j).filter(
                        keeps_watch(conn),
                    ).push(before0[j]));
                    assert(before0.take(j).filter(keeps_watch(conn)).push(before0[j])
                        + before0.skip(j + 1) =~= before0.take(j).filter(keeps_watch(conn))
                        + before0.skip(j));
                }
                i = i + 1;
            }
            proof {
                j = j + 1;
            }
        }
        proof {
            assert(j == before0.len()) by {
                before0.take(j).lemma_filter_len(keeps_watch(conn));
                assert(before0.skip(j).len() == 0);
            }
            assert(before0.take(j) =~= before0);
            assert(self.watches@ =~= before0.filter(keeps_watch(conn)));
            let now = self.view_list();
            let old_views = old(self).view_list();
            assert forall|w: WatchView|
                #![trigger now.contains(w)]
                now.contains(w) <==> (old_views.contains(w) && w.conn != conn) by {
                if now.contains(w) {
                    let a = choose|a: int| 0 <= a < now.len() && now[a] == w;
                    assert(self.watches@[a].deep_view() == w);
                    lemma_filter_watch_members(before0, keeps_watch(conn), a);
                    let b = choose|b: int|
                        0 <= b < before0.len() && #[trigger] before0[b] == self.watches@[a];
                    assert(old_views[b] == w);
                    assert(old_views.contains(w));
                    before0.lemma_filter_pred(keeps_watch(conn), a);
                }
                if old_views.contains(w) && w.conn != conn {
                    let b = choose|b: int| 0 <= b < old_views.len() && old_views[b] == w;
                    assert(before0[b].deep_view() == w);
                    assert(keeps_watch(conn)(before0[b]));
                    before0.lemma_filter_contains(keeps_watch(conn), b);
                    let fs = before0.filter(keeps_watch(conn));
                    let a = choose|a: int| 0 <= a < fs.len() && fs[a] == before0[b];
                    assert(now[a] == w);
                    assert(now.contains(w));
                }
            }
            assert forall|a: int, b: int| 0 <= a < b < before0.len() implies (
            #[trigger] before0[a]).deep_view() != (#[trigger] before0[b]).deep_view() by {
                assert(old_views[a] == before0[a].deep_view());
                assert(old_views[b] == before0[b].deep_view());
            }
            assert forall|a: int, b: int| 0 <= a < b < now.len() implies (#[trigger] now[a]) != (
            #[trigger] now[b]) by {
                lemma_filter_watch_distinct(before0, keeps_watch(conn), a, b);
                assert(now[a] == before0.filter(keeps_watch(conn))[a].deep_view());
                assert(now[b] == before0.filter(keeps_watch(conn))[b].deep_view());
            }
        }
        Ok(())
    }

    /// Every subscription that one commit record fires, each at most
    /// once.
    pub fn fire_single(&self, single: &AppliedChange) -> (r: Vec<Watch>)
        requires
            self.inv(),
        ensures
            forall|i: int, j: int|
                0 <= i < j < r.deep_view().len() ==> (#[trigger] r.deep_view()[i]) != (
                #[trigger] r.deep_view()[j]),
            forall|w: WatchView|
                #![trigger r.deep_view().contains(w)]
                r.deep_view().contains(w) <==> (self.view_list().contains(w) && spec_watch_matches(
                    w,
                    single@,
                )),
    {
        let mut batch: Vec<AppliedChange> = Vec::new();
        batch.push(single.shallow_copy());
        proof {
            assert(batch.deep_view() =~= seq![single@]);
            assert forall|w: WatchView|
                spec_any_match(w, batch.deep_view()) == spec_watch_matches(w, single@) by {
                if spec_watch_matches(w, single@) {
                    assert(batch.deep_view()[0] == single@);
                }
            }
        }
        self.fire_batch(&batch)
    }

    /// Every subscription fired by any record of the batch, each at
    /// most once, however many records it matches.
    pub fn fire_batch(&self, batch: &Vec<AppliedChange>) -> (r: Vec<Watch>)
        requires
            self.inv(),
        ensures
            forall|i: int, j: int|
                0 <= i < j < r.deep_view().len() ==> (#[trigger] r.deep_view()[i]) != (
                #[trigger] r.deep_view()[j]),
            forall|w: WatchView|
                #![trigger r.deep_view().contains(w)]
                r.deep_view().contains(w) <==> (self.view_list().contains(w) && spec_any_match(
                    w,
                    batch.deep_view(),
                )),
    {
        let ghost ws = self.view_list();
        let mut out: Vec<Watch> = Vec::new();
        let mut i: usize = 0;
        let n = self.watches.len();
        proof {
            assert(out.deep_view() =~= Seq::<WatchView>::empty());
        }
        while i < n
            invariant
                i <= n,
                n == ws.len(),
                ws == self.view_list(),
                self.inv(),
                forall|a: int, b: int|
                    0 <= a < b < out.deep_view().len() ==> (#[trigger] out.deep_view()[a]) != (
                    #[trigger] out.deep_view()[b]),
                forall|w: WatchView|
                    #![trigger out.deep_view().contains(w)]
                    out.deep_view().contains(w) <==> (exists|j: int|
                        0 <= j < i && ws[j] == w && spec_any_match(w, batch.deep_view())),
            decreases n - i,
        {
            proof {
                assert(self.watches@[i as int].deep_view() == ws[i as int]);
            }
            let mut hit = false;
            let mut c: usize = 0;
            let m = batch.len();
            while c < m
                invariant
                    c <= m,
                    m == batch.deep_view().len(),
                    i < n,
                    n == ws.len(),
                    ws == self.view_list(),
                    self.watches@[i as int].deep_view() == ws[i as int],
                    batch.deep_view().len() == batch@.len(),
                    hit ==> spec_any_match(ws[i as int], batch.deep_view()),
                    !hit ==> (forall|d: int|
                        0 <= d < c ==> !spec_watch_matches(
                            ws[i as int],
                            #[trigger] batch.deep_view()[d],
                        )),
                decreases m - c,
            {
                if !hit {
                    if self.watches[i].matches(&batch[c]) {
                        proof {
                            assert(batch@[c as int].deep_view() == batch.deep_view()[c as int]);
                            assert(spec_watch_matches(ws[i as int], batch.deep_view()[c as int]));
                        }
                        hit = true;
                    } else {
                        proof {
                            assert(batch@[c as int].deep_view() == batch.deep_view()[c as int]);
                        }
                    }
                }
                c = c + 1;
            }
            if hit {
                let ghost before = out.deep_view();
                let dup = self.watches[i].duplicate();
                let already = member_position(&out, &dup);
                if already.is_none() {
                    out.push(dup);
                    proof {
                        assert(out.deep_view() =~~= before.push(ws[i as int]));
                        assert forall|a: int, b: int| 0 <= a < b < out.deep_view().len() implies (
                        #[trigger] out.deep_view()[a]) != (#[trigger] out.deep_view()[b]) by {
                            if b < before.len() {
                                assert(before[a] != before[b]);
                            } else {
                                assert(out.deep_view()[b] == ws[i as int]);
                                assert(!before.contains(ws[i as int]));
                                assert(before[a] != ws[i as int]);
                            }
                        }
                        assert forall|w: WatchView|
                            #![trigger out.deep_view().contains(w)]
                            out.deep_view().contains(w) <==> (exists|j: int|
                                0 <= j < i + 1 && ws[j] == w && spec_any_match(
                                    w,
                                    batch.deep_view(),
                                )) by {
                            if out.deep_view().contains(w) {
                                let a = choose|a: int|
                                    0 <= a < out.deep_view().len() && out.deep_view()[a] == w;
                                if a < before.len() {
                                    assert(before.contains(w));
                                } else {
                                    assert(w == ws[i as int]);
                                }
                            }
                            if exists|j: int|
                                0 <= j < i + 1 && ws[j] == w && spec_any_match(
                                    w,
                                    batch.deep_view(),
                                ) {
                                let j = choose|j: int|
                                    0 <= j < i + 1 && ws[j] == w && spec_any_match(
                                        w,
                                        batch.deep_view(),
                                    );
                                if j < i {
                                    assert(before.contains(w));
                                    let a = choose|a: int|
                                        0 <= a < before.len() && before[a] == w;
                                    assert(out.deep_view()[a] == w);
                                } else {
                                    assert(out.deep_view()[before.len() as int] == w);
                                }
                            }
                        }
                    }
                } else {
                    proof {
                        assert forall|w: WatchView|
                            #![trigger out.deep_view().contains(w)]
                            out.deep_view().contains(w) <==> (exists|j: int|
                                0 <= j < i + 1 && ws[j] == w && spec_any_match(
                                    w,
                                    batch.deep_view(),
                                )) by {
                            if !out.deep_view().contains(w) {
                                if exists|j: int|
                                    0 <= j < i + 1 && ws[j] == w && spec_any_match(
                                        w,
                                        batch.deep_view(),
                                    ) {
                                    let j = choose|j: int|
                                        0 <= j < i + 1 && ws[j] == w && spec_any_match(
                                            w,
                                            batch.deep_view(),
                                        );
                                    assert(j == i || (0 <= j < i && ws[j] == w));
                                    assert(out.deep_view().contains(ws[i as int]));
                                    assert(false);
                                }
                            }
                        }
                    }
                }
            } else {
                proof {
                    assert forall|w: WatchView|
                        #![trigger out.deep_view().contains(w)]
                        out.deep_view().contains(w) <==> (exists|j: int|
                            0 <= j < i + 1 && ws[j] == w && spec_any_match(
                                w,
                                batch.deep_view(),
                            )) by {
                        if !out.deep_view().contains(w) {
                            if exists|j: int|
                                0 <= j < i + 1 && ws[j] == w && spec_any_match(
                                    w,
                                    batch.deep_view(),
                                ) {
                                let j = choose|j: int|
                                    0 <= j < i + 1 && ws[j] == w && spec_any_match(
                                        w,
                                        batch.deep_view(),
                                    );
                                assert(0 <= j < i);
                            }
                        }
                    }
                }
            }
            i = i + 1;
        }
        proof {
            assert forall|w: WatchView|
                #![trigger out.deep_view().contains(w)]
                out.deep_view().contains(w) <==> (ws.contains(w) && spec_any_match(
                    w,
                    batch.deep_view(),
                )) by {
                if out.deep_view().contains(w) {
                    let j = choose|j: int|
                        0 <= j < i && ws[j] == w && spec_any_match(w, batch.deep_view());
                    assert(ws.contains(w));
                }
                if ws.contains(w) && spec_any_match(w, batch.deep_view()) {
                    let j = choose|j: int| 0 <= j < ws.len() && ws[j] == w;
                }
            }
        }
        out
    }

    /// Every subscription fired by an apply's outcome: nothing fires
    /// when nothing was applied.
    pub fn fire(&self, applied_changes: Option<Vec<AppliedChange>>) -> (r: Vec<Watch>)
        requires
            self.inv(),
        ensures
            forall|i: int, j: int|
                0 <= i < j < r.deep_view().len() ==> (#[trigger] r.deep_view()[i]) != (
                #[trigger] r.deep_view()[j]),
            forall|w: WatchView|
                #![trigger r.deep_view().contains(w)]
                r.deep_view().contains(w) <==> (self.view_list().contains(w) && (
                applied_changes matches Some(batch) && spec_any_match(w, batch.deep_view()))),
    {
        match applied_changes {
            Some(batch) => self.fire_batch(&batch),
            None => {
                let r: Vec<Watch> = Vec::new();
                proof {
                    assert(r.deep_view() =~= Seq::<WatchView>::empty());
                    assert forall|w: WatchView| !(#[trigger] r.deep_view().contains(w)) by {
                        if r.deep_view().contains(w) {
                            let a = choose|a: int|
                                0 <= a < r.deep_view().len() && r.deep_view()[a] == w;
                        }
                    }
                }
                r
            }
        }
    }
}

/// The index of a view-equal member of `out`, if any.
fn member_position(out: &Vec<Watch>, w: &Watch) -> (r: Option<usize>)
    ensures
        r is Some ==> out.deep_view().contains(w@),
        r is None ==> !out.deep_view().contains(w@),
{
    let ghost ws = out.deep_view();
    let mut i: usize = 0;
    let n = out.len();
    while i < n
        invariant
            i <= n,
            n == ws.len(),
            ws == out.deep_view(),
            forall|j: int| 0 <= j < i ==> ws[j] != w@,
        decreases n - i,
    {
        proof {
            assert(out@[i as int].deep_view() == ws[i as int]);
        }
        if out[i].same_as(w) {
            proof {
                assert(ws.contains(w@));
            }
            return Some(i);
        }
        i = i + 1;
    }
    proof {
        if ws.contains(w@) {
            let j = choose|j: int| 0 <= j < ws.len() && ws[j] == w@;
            assert(false);
        }
    }
    None
}

/// Every member of a filtered list is a member of the unfiltered one.
proof fn lemma_filter_watch_members(ws: Seq<Watch>, pred: spec_fn(Watch) -> bool, a: int)
    requires
        0 <= a < ws.filter(pred).len(),
    ensures
        exists|i: int| 0 <= i < ws.len() && #[trigger] ws[i] == ws.filter(pred)[a],
    decreases ws.len(),
{
    reveal(Seq::filter);
    if ws.len() > 0 {
        let dl = ws.drop_last();
        if pred(ws.last()) && a == ws.filter(pred).len() - 1 {
            assert(ws[ws.len() - 1] == ws.filter(pred)[a]);
        } else {
            lemma_filter_watch_members(dl, pred, a);
            let i = choose|i: int| 0 <= i < dl.len() && #[trigger] dl[i] == dl.filter(pred)[a];
            assert(ws[i] == ws.filter(pred)[a]);
        }
    }
}

/// Distinct positions of a filtered list come from distinct
/// positions of the unfiltered list, so distinct views stay distinct.
proof fn lemma_filter_watch_distinct(
    ws: Seq<Watch>,
    pred: spec_fn(Watch) -> bool,
    a: int,
    b: int,
)
    requires
        0 <= a < b < ws.filter(pred).len(),
        forall|i: int, j: int|
            0 <= i < j < ws.len() ==> (#[trigger] ws[i]).deep_view() != (
            #[trigger] ws[j]).deep_view(),
    ensures
        ws.filter(pred)[a].deep_view() != ws.filter(pred)[b].deep_view(),
    decreases ws.len(),
{
    reveal(Seq::filter);
    if ws.len() > 0 {
        let dl = ws.drop_last();
        assert forall|i: int, j: int| 0 <= i < j < dl.len() implies (
        #[trigger] dl[i]).deep_view() != (#[trigger] dl[j]).deep_view() by {
            assert(ws[i].deep_view() != ws[j].deep_view());
        }
        if pred(ws.last()) && b == ws.filter(pred).len() - 1 {
            assert(ws.filter(pred)[b] == ws.last());
            assert(ws.filter(pred)[a] == dl.filter(pred)[a]);
            lemma_filter_watch_members(dl, pred, a);
            let i = choose|i: int| 0 <= i < dl.len() && #[trigger] dl[i] == dl.filter(pred)[a];
            assert(ws[i].deep_view() != ws[ws.len() - 1].deep_view());
        } else {
            lemma_filter_watch_distinct(dl, pred, a, b);
            if pred(ws.last()) {
                assert(ws.filter(pred)[a] == dl.filter(pred)[a]);
                assert(ws.filter(pred)[b] == dl.filter(pred)[b]);
            }
        }
    }
}

/// A shallow copy of a commit record.
impl AppliedChange {
    /// An owned copy of this record.
    pub fn shallow_copy(&self) -> (r: AppliedChange)
        ensures
            r@ == self@,
    {
        match *self {
            AppliedChange::Write(ref p, ref perms) => AppliedChange::Write(
                p.duplicate(),
                copy_perms(perms),
            ),
            AppliedChange::Remove(ref p) => AppliedChange::Remove(p.duplicate()),
            AppliedChange::IntroduceDomain => AppliedChange::IntroduceDomain,
            AppliedChange::ReleaseDomain => AppliedChange::ReleaseDomain,
        }
    }
}

/// An owned copy of a permission list.
fn copy_perms(perms: &Vec<crate::store::Permission>) -> (r: Vec<crate::store::Permission>)
    ensures
        r@ == perms@,
{
    let mut r: Vec<crate::store::Permission> = Vec::new();
    let mut i: usize = 0;
    while i < perms.len()
        invariant
            i <= perms@.len(),
            r@ == perms@.take(i as int),
        decreases perms@.len() - i,
    {
        r.push(perms[i]);
        proof {
            assert(r@ =~= perms@.take(i + 1));
        }
        i = i + 1;
    }
    proof {
        assert(perms@.take(i as int) =~= perms@);
    }
    r
}

} // verus!
