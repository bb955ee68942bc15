//! The hierarchical store: a node tree with per-node permissions, a
//! monotonic generation counter, and the copy-on-write change set
//! through which every mutation flows. Reads consult the change set
//! first and fall through to the backing store; the store itself is
//! only ever changed by applying a whole change set.

use vstd::prelude::*;
use vstd::pervasive::VecAdditionalExecFns;
use vstd::string::StringExecFns;
use crate::error::Error;
use crate::path::{Path, PathView, path_wf, is_component, duplicate_string};
use crate::text::{lex_lt, string_lt, str_chars, chars_eq, lemma_lex_total, lemma_lex_asym};
use crate::wire::DomainId;

verus! {

/// The privileged domain's identifier.
pub const DOM0_DOMAIN_ID: DomainId = 0;

pub type Basename = String;

pub type Value = String;

/// A permission mode: a small bit mask.
pub type Perm = u32;

pub const PERM_NONE: Perm = 0;

pub const PERM_READ: Perm = 1;

pub const PERM_WRITE: Perm = 2;

pub const PERM_BOTH: Perm = 3;

pub const PERM_OWNER: Perm = 4;

/// One entry of a node's permission list: a domain and its mode.
/// Entry `[0]` names the owner and the default mode for domains
/// without an explicit entry.
#[derive(Clone, Copy, Debug, PartialEq, Eq, Structural)]
pub struct Permission {
    pub id: DomainId,
    pub perm: Perm,
}

/// The mode of the first explicit entry for `dom_id`, if any.
pub open spec fn lookup_perm(perms: Seq<Permission>, dom_id: DomainId) -> Option<Perm>
    decreases perms.len(),
{
    if perms.len() == 0 {
        None
    } else if perms[0].id == dom_id {
        Some(perms[0].perm)
    } else {
        lookup_perm(perms.drop_first(), dom_id)
    }
}

/// The permission check. The privileged domain and the owner may do
/// anything; a domain with an explicit entry gets that entry's mode;
/// anyone else gets the default mode of entry `[0]`.
pub open spec fn spec_perms_ok(dom_id: DomainId, perms: Seq<Permission>, perm: Perm) -> bool
    recommends
        perms.len() > 0,
{
    if dom_id == DOM0_DOMAIN_ID || (perms.len() > 0 && perms[0].id == dom_id) {
        perm & (PERM_READ | PERM_WRITE | PERM_OWNER) == perm
    } else {
        match lookup_perm(perms, dom_id) {
            Some(p) => p & perm == perm,
            None => perms.len() > 0 && perms[0].perm & perm == perm,
        }
    }
}

/// Checks a permission list for `dom_id` and the requested mode.
pub fn perms_ok(dom_id: DomainId, permissions: &Vec<Permission>, perm: Perm) -> (r: bool)
    ensures
        r == spec_perms_ok(dom_id, permissions@, perm),
{
    let mask: u32 = PERM_READ | PERM_WRITE | PERM_OWNER;
    if dom_id == DOM0_DOMAIN_ID || (permissions.len() > 0 && permissions[0].id == dom_id) {
        return (perm & mask) == perm;
    }
    let mut i: usize = 0;
    proof {
        assert(permissions@.skip(0) =~= permissions@);
    }
    while i < permissions.len()
        invariant
            i <= permissions@.len(),
            dom_id != DOM0_DOMAIN_ID,
            permissions@.len() > 0 ==> permissions@[0].id != dom_id,
            lookup_perm(permissions@, dom_id) == lookup_perm(permissions@.skip(i as int), dom_id),
        decreases permissions@.len() - i,
    {
        proof {
            assert(permissions@.skip(i as int).drop_first() =~= permissions@.skip(i + 1));
            assert(permissions@.skip(i as int)[0] == permissions@[i as int]);
        }
        if permissions[i].id == dom_id {
            return (permissions[i].perm & perm) == perm;
        }
        i = i + 1;
    }
    proof {
        assert(lookup_perm(permissions@.skip(i as int), dom_id) is None);
    }
    permissions.len() > 0 && (permissions[0].perm & perm) == perm
}

/// The mathematical value of a node.
#[verifier::ext_equal]
pub struct NodeView {
    pub path: PathView,
    pub value: Seq<char>,
    pub children: Seq<Seq<char>>,
    pub permissions: Seq<Permission>,
}

/// A node of the tree: its path, value, the basenames of its
/// children, and its permission list.
#[derive(Clone, Debug)]
pub struct Node {
    pub path: Path,
    pub value: Value,
    pub children: Vec<Basename>,
    pub permissions: Vec<Permission>,
}

impl View for Node {
    type V = NodeView;

    open spec fn view(&self) -> NodeView {
        NodeView {
            path: self.path@,
            value: self.value@,
            children: self.children.deep_view(),
            permissions: self.permissions@,
        }
    }
}

impl DeepView for Node {
    type V = NodeView;

    open spec fn deep_view(&self) -> NodeView {
        self@
    }
}

impl Node {
    /// Whether `dom_id` may act on this node with mode `perm`.
    pub fn perms_ok(&self, dom_id: DomainId, perm: Perm) -> (r: bool)
        ensures
            r == spec_perms_ok(dom_id, self@.permissions, perm),
    {
        perms_ok(dom_id, &self.permissions, perm)
    }

    /// An owned copy of this node.
    pub fn duplicate(&self) -> (r: Node)
        ensures
            r@ == self@,
    {
        broadcast use vstd::std_specs::vec::vec_clone_deep_view_proof;

        let path = self.path.duplicate();
        let value = self.value.clone();
        let children = self.children.clone();
        let permissions = clone_permissions(&self.permissions);
        proof {
            assert(children.deep_view() =~~= self.children.deep_view());
        }
        Node { path, value, children, permissions }
    }
}

/// An owned copy of a permission list.
fn clone_permissions(perms: &Vec<Permission>) -> (r: Vec<Permission>)
    ensures
        r@ == perms@,
{
    let mut r: Vec<Permission> = Vec::new();
    let mut i: usize = 0;
    while i < perms.len()
        invariant
            i <= perms@.len(),
            r@ == perms@.take(i as int),
        decreases perms@.len() - i,
    {
        r.push(perms[i]);
        proof {
            assert(r@ =~= perms@.take(i + 1));
        }
        i = i + 1;
    }
    proof {
        assert(perms@.take(i as int) =~= perms@);
    }
    r
}

/// The permissions a newly created node inherits: the nearest
/// existing ancestor's list, with the owner slot rewritten to the
/// creating domain unless it is privileged.
pub open spec fn spec_inherit(perms: Seq<Permission>, dom_id: DomainId) -> Seq<Permission>
    recommends
        perms.len() > 0,
{
    if dom_id == DOM0_DOMAIN_ID {
        perms
    } else {
        perms.update(0, Permission { id: dom_id, perm: perms[0].perm })
    }
}

/// Builds the permission list a node created by `dom_id` inherits.
fn inherit_perms(perms: &Vec<Permission>, dom_id: DomainId) -> (r: Vec<Permission>)
    requires
        perms@.len() > 0,
    ensures
        r@ == spec_inherit(perms@, dom_id),
{
    let mut r = clone_permissions(perms);
    if dom_id != DOM0_DOMAIN_ID {
        let mode = r[0].perm;
        r.set(0, Permission { id: dom_id, perm: mode });
    }
    r
}

/// Children are kept strictly sorted, and each is a usable
/// component: that makes listing deterministic and names unique.
pub open spec fn children_wf(cs: Seq<Seq<char>>) -> bool {
    &&& forall|i: int| 0 <= i < cs.len() ==> is_component(#[trigger] cs[i])
    &&& forall|i: int, j: int| 0 <= i < j < cs.len() ==> lex_lt(cs[i], cs[j])
}

/// Whether the child list holds `name`.
fn children_contains(children: &Vec<Basename>, name: &Vec<char>) -> (r: bool)
    ensures
        r == children.deep_view().contains(name@),
{
    let ghost cs = children.deep_view();
    let mut i: usize = 0;
    while i < children.len()
        invariant
            i <= cs.len(),
            cs == children.deep_view(),
            cs.len() == children@.len(),
            forall|j: int| 0 <= j < i ==> cs[j] != name@,
        decreases cs.len() - i,
    {
        let c = str_chars(children[i].as_str());
        proof {
            assert(children@[i as int].deep_view() == cs[i as int]);
        }
        if chars_eq(&c, name) {
            proof {
                assert(cs.contains(name@));
            }
            return true;
        }
        i = i + 1;
    }
    proof {
        if cs.contains(name@) {
            let j = choose|j: int| 0 <= j < cs.len() && cs[j] == name@;
            assert(false);
        }
    }
    false
}

/// Inserts `name` into the sorted child list; present names stay put.
fn children_insert(children: &mut Vec<Basename>, name: &String)
    requires
        children_wf(old(children).deep_view()),
        is_component(name@),
    ensures
        children_wf(final(children).deep_view()),
        forall|c: Seq<char>|
            final(children).deep_view().contains(c) <==> (old(children).deep_view().contains(c)
                || c == name@),
        old(children).deep_view().contains(name@) ==> final(children).deep_view() == old(
            children,
        ).deep_view(),
{
    let ghost cs = children.deep_view();
    let name_chars = str_chars(name.as_str());
    let mut i: usize = 0;
    let n = children.len();
    while i < n
        invariant
            i <= n,
            n == children@.len(),
            cs == children.deep_view(),
            cs == old(children).deep_view(),
            children_wf(cs),
            is_component(name@),
            name_chars@ == name@,
            forall|j: int| 0 <= j < i ==> lex_lt(#[trigger] cs[j], name@),
        decreases n - i,
    {
        let c = str_chars(children[i].as_str());
        proof {
            assert(children@[i as int].deep_view() == cs[i as int]);
        }
        if chars_eq(&c, &name_chars) {
            proof {
                assert(cs.contains(name@));
            }
            return ;
        }
        if !string_lt(&children[i], name) {
            // the stored name is neither equal nor smaller, so it is
            // larger: this is the insertion point
            proof {
                lemma_lex_total(cs[i as int], name@);
                assert(lex_lt(name@, cs[i as int]));
            }
            let ghost before = children.deep_view();
            children.insert(i, duplicate_string(name));
            proof {
                if cs.contains(name@) {
                    let j = choose|j: int| 0 <= j < cs.len() && cs[j] == name@;
                    if j < i {
                        assert(lex_lt(cs[j], name@));
                    } else if j > i {
                        assert(lex_lt(cs[i as int], cs[j]));
                        crate::text::lemma_lex_trans(name@, cs[i as int], cs[j]);
                    }
                    lemma_lex_asym(name@, name@);
                    assert(false);
                }
                assert(children.deep_view() =~~= before.insert(i as int, name@));
                let now = children.deep_view();
                assert forall|a: int, b: int| 0 <= a < b < now.len() implies lex_lt(
                    #[trigger] now[a],
                    #[trigger] now[b],
                ) by {
                    if b < i {
                        assert(now[a] == cs[a] && now[b] == cs[b]);
                    } else if b == i {
                        assert(now[a] == cs[a] && now[b] == name@);
                        assert(lex_lt(cs[a], name@));
                    } else if a < i {
                        assert(now[a] == cs[a] && now[b] == cs[b - 1]);
                        assert(a < b - 1);
                        assert(lex_lt(cs[a], cs[b - 1]));
                    } else if a == i {
                        assert(now[a] == name@ && now[b] == cs[b - 1]);
                        if b - 1 == i {
                            assert(lex_lt(name@, cs[i as int]));
                        } else {
                            assert(lex_lt(cs[i as int], cs[b - 1]));
                            crate::text::lemma_lex_trans(name@, cs[i as int], cs[b - 1]);
                        }
                    } else {
                        assert(now[a] == cs[a - 1] && now[b] == cs[b - 1]);
                    }
                }
                assert forall|a: int| 0 <= a < now.len() implies is_component(
                    #[trigger] now[a],
                ) by {
                    if a < i {
                        assert(now[a] == cs[a]);
                    } else if a > i {
                        assert(now[a] == cs[a - 1]);
                    }
                }
                assert forall|c: Seq<char>| now.contains(c) implies (cs.contains(c) || c
                    == name@) by {
                    let j = choose|j: int| 0 <= j < now.len() && now[j] == c;
                    if j < i {
                        assert(cs[j] == c);
                    } else if j > i {
                        assert(cs[j - 1] == c);
                    }
                }
                assert forall|c: Seq<char>| (cs.contains(c) || c == name@) implies now.contains(
                    c,
                ) by {
                    if cs.contains(c) {
                        let j = choose|j: int| 0 <= j < cs.len() && cs[j] == c;
                        if j < i {
                            assert(now[j] == c);
                        } else {
                            assert(now[j + 1] == c);
                        }
                    } else {
                        assert(now[i as int] == c);
                    }
                }
            }
            return ;
        }
        i = i + 1;
    }
    // every stored name is smaller: append at the end
    let ghost before = children.deep_view();
    children.push(duplicate_string(name));
    proof {
        assert(children.deep_view() =~~= before.push(name@));
        let now = children.deep_view();
        assert(forall|j: int| 0 <= j < before.len() ==> now[j] == before[j]);
        assert(now[before.len() as int] == name@);
        if before.contains(name@) {
            let j = choose|j: int| 0 <= j < before.len() && before[j] == name@;
            lemma_lex_asym(name@, name@);
            assert(false);
        }
        assert forall|c: Seq<char>| now.contains(c) implies (before.contains(c) || c == name@) by {
            let j = choose|j: int| 0 <= j < now.len() && now[j] == c;
            if j < before.len() {
                assert(before[j] == c);
            }
        }
        assert forall|c: Seq<char>| (before.contains(c) || c == name@) implies now.contains(c) by {
            if before.contains(c) {
                let j = choose|j: int| 0 <= j < before.len() && before[j] == c;
                assert(now[j] == c);
            } else {
                assert(now[before.len() as int] == c);
            }
        }
    }
}

/// Removes `name` from the sorted child list, if present.
fn children_remove(children: &mut Vec<Basename>, name: &Vec<char>)
    requires
        children_wf(old(children).deep_view()),
    ensures
        children_wf(final(children).deep_view()),
        forall|c: Seq<char>|
            final(children).deep_view().contains(c) <==> (old(children).deep_view().contains(c) && c
                != name@),
{
    let ghost cs = children.deep_view();
    let mut i: usize = 0;
    let n = children.len();
    while i < n
        invariant
            i <= n,
            n == children@.len(),
            cs == children.deep_view(),
            cs == old(children).deep_view(),
            children_wf(cs),
            forall|j: int| 0 <= j < i ==> cs[j] != name@,
        decreases n - i,
    {
        let c = str_chars(children[i].as_str());
        proof {
            assert(children@[i as int].deep_view() == cs[i as int]);
        }
        if chars_eq(&c, name) {
            let ghost before = children.deep_view();
            children.remove(i);
            proof {
                assert(children.deep_view() =~~= before.remove(i as int));
                let now = children.deep_view();
                assert forall|a: int, b: int| 0 <= a < b < now.len() implies lex_lt(
                    #[trigger] now[a],
                    #[trigger] now[b],
                ) by {
                    let ra = if a < i {
                        a
                    } else {
                        a + 1
                    };
                    let rb = if b < i {
                        b
                    } else {
                        b + 1
                    };
                    assert(now[a] == cs[ra] && now[b] == cs[rb]);
                }
                assert forall|a: int| 0 <= a < now.len() implies is_component(
                    #[trigger] now[a],
                ) by {
                    let ra = if a < i {
                        a
                    } else {
                        a + 1
                    };
                    assert(now[a] == cs[ra]);
                }
                assert forall|c2: Seq<char>| now.contains(c2) implies (cs.contains(c2) && c2
                    != name@) by {
                    let j = choose|j: int| 0 <= j < now.len() && now[j] == c2;
                    let rj = if j < i {
                        j
                    } else {
                        j + 1
                    };
                    assert(cs[rj] == c2);
                    if c2 == name@ {
                        // a second copy of the name would break strict sortedness
                        if rj < i {
                            assert(lex_lt(cs[rj], cs[i as int]));
                            lemma_lex_asym(cs[rj], cs[i as int]);
                        } else {
                            assert(lex_lt(cs[i as int], cs[rj]));
                            lemma_lex_asym(cs[i as int], cs[rj]);
                        }
                        assert(false);
                    }
                }
                assert forall|c2: Seq<char>| (cs.contains(c2) && c2 != name@) implies now.contains(
                    c2,
                ) by {
                    let j = choose|j: int| 0 <= j < cs.len() && cs[j] == c2;
                    if j < i {
                        assert(now[j] == c2);
                    } else if j > i {
                        assert(now[j - 1] == c2);
                    } else {
                        assert(cs[i as int] == name@);
                        assert(false);
                    }
                }
            }
            return ;
        }
        i = i + 1;
    }
    proof {
        if cs.contains(name@) {
            let j = choose|j: int| 0 <= j < cs.len() && cs[j] == name@;
            assert(false);
        }
    }
}

/// A well-formed node: a well-formed path, a non-empty permission
/// list, and well-formed children.
pub open spec fn node_wf(n: NodeView) -> bool {
    &&& path_wf(n.path)
    &&& n.permissions.len() > 0
    &&& children_wf(n.children)
}

/// The first node with path `p`, if any.
pub open spec fn find_node(nodes: Seq<NodeView>, p: PathView) -> Option<NodeView>
    decreases nodes.len(),
{
    if nodes.len() == 0 {
        None
    } else if nodes[0].path == p {
        Some(nodes[0])
    } else {
        find_node(nodes.drop_first(), p)
    }
}

/// One recorded mutation: write a whole node, or remove one.
#[derive(Clone, Debug)]
pub enum Change {
    Write(Node),
    Remove(Node),
}

/// The mathematical value of a recorded mutation.
#[verifier::ext_equal]
pub enum ChangeView {
    Write(NodeView),
    Remove(NodeView),
}

impl View for Change {
    type V = ChangeView;

    open spec fn view(&self) -> ChangeView {
        match *self {
            Change::Write(ref n) => ChangeView::Write(n@),
            Change::Remove(ref n) => ChangeView::Remove(n@),
        }
    }
}

impl DeepView for Change {
    type V = ChangeView;

    open spec fn deep_view(&self) -> ChangeView {
        self@
    }
}

/// The path a recorded mutation is keyed by.
pub open spec fn change_path(c: ChangeView) -> PathView {
    match c {
        ChangeView::Write(n) => n.path,
        ChangeView::Remove(n) => n.path,
    }
}

/// The node a recorded mutation carries.
pub open spec fn change_node(c: ChangeView) -> NodeView {
    match c {
        ChangeView::Write(n) => n,
        ChangeView::Remove(n) => n,
    }
}

impl Change {
    /// The path this change is keyed by.
    pub fn path(&self) -> (r: &Path)
        ensures
            r@ == change_path(self@),
    {
        match *self {
            Change::Write(ref node) => &node.path,
            Change::Remove(ref node) => &node.path,
        }
    }

    /// An owned copy of this change.
    pub fn duplicate(&self) -> (r: Change)
        ensures
            r@ == self@,
    {
        match *self {
            Change::Write(ref node) => Change::Write(node.duplicate()),
            Change::Remove(ref node) => Change::Remove(node.duplicate()),
        }
    }
}

/// The first recorded mutation keyed by `p`, if any.
pub open spec fn find_change(changes: Seq<ChangeView>, p: PathView) -> Option<ChangeView>
    decreases changes.len(),
{
    if changes.len() == 0 {
        None
    } else if change_path(changes[0]) == p {
        Some(changes[0])
    } else {
        find_change(changes.drop_first(), p)
    }
}

/// What a reader sees at `p` through the overlay: a write shadows
/// the store, a remove hides it, anything else falls through.
pub open spec fn eff_lookup(nodes: Seq<NodeView>, changes: Seq<ChangeView>, p: PathView) -> Option<
    NodeView,
> {
    match find_change(changes, p) {
        Some(ChangeView::Write(n)) => Some(n),
        Some(ChangeView::Remove(_)) => None,
        None => find_node(nodes, p),
    }
}

/// A well-formed change list: keyed by distinct paths, each entry's
/// node well-formed and keyed by its own path, and the root is never
/// removed.
pub open spec fn changes_wf(changes: Seq<ChangeView>) -> bool {
    &&& forall|i: int, j: int|
        0 <= i < j < changes.len() ==> change_path(#[trigger] changes[i]) != change_path(
            #[trigger] changes[j],
        )
    &&& forall|i: int| 0 <= i < changes.len() ==> node_wf(change_node(#[trigger] changes[i]))
    &&& forall|i: int|
        0 <= i < changes.len() ==> ((#[trigger] changes[i]) is Remove ==> change_path(
            changes[i],
        ).len() > 0)
}

/// A well-formed store: nodes keyed by distinct paths, each
/// well-formed and keyed by its own path, and the root present.
pub open spec fn nodes_wf(nodes: Seq<NodeView>) -> bool {
    &&& forall|i: int, j: int|
        0 <= i < j < nodes.len() ==> (#[trigger] nodes[i]).path != (#[trigger] nodes[j]).path
    &&& forall|i: int| 0 <= i < nodes.len() ==> node_wf(#[trigger] nodes[i])
    &&& find_node(nodes, Seq::empty()) is Some
}

/// The tree shape of what a reader sees through the overlay: the
/// root exists; every node sits at its own path, is well-formed, and
/// is listed among its parent's children; and every listed child
/// resolves to a node.
pub open spec fn eff_tree_wf(nodes: Seq<NodeView>, changes: Seq<ChangeView>) -> bool {
    &&& eff_lookup(nodes, changes, Seq::empty()) is Some
    &&& forall|p: PathView|
        (#[trigger] eff_lookup(nodes, changes, p)) matches Some(n) ==> n.path == p && node_wf(n)
    &&& forall|p: PathView|
        ((#[trigger] eff_lookup(nodes, changes, p)) is Some && p.len() > 0) ==> (eff_lookup(
            nodes,
            changes,
            p.drop_last(),
        ) matches Some(par) && par.children.contains(p.last()))
    &&& forall|p: PathView, c: Seq<char>|
        #![trigger eff_lookup(nodes, changes, p.push(c))]
        (eff_lookup(nodes, changes, p) matches Some(n) && n.children.contains(c)) ==> eff_lookup(
            nodes,
            changes,
            p.push(c),
        ) is Some
}

/// The tree shape of the store alone.
pub open spec fn store_tree_wf(nodes: Seq<NodeView>) -> bool {
    eff_tree_wf(nodes, Seq::empty())
}

/// The length of the nearest ancestor of `p` (strictly, of length at
/// most `from`) that resolves through the overlay; 0 if none does.
pub open spec fn anc_len(
    nodes: Seq<NodeView>,
    changes: Seq<ChangeView>,
    p: PathView,
    from: int,
) -> int
    decreases from,
{
    if from <= 0 {
        0
    } else if eff_lookup(nodes, changes, p.take(from)) is Some {
        from
    } else {
        anc_len(nodes, changes, p, from - 1)
    }
}

/// The node created at depth `m` when the missing tail of `pv` is
/// built: empty value and one child along the chain, the supplied
/// value and no children at the end, inherited permissions.
pub open spec fn chain_node(
    anchor: NodeView,
    dom_id: DomainId,
    pv: PathView,
    v: Seq<char>,
    m: int,
) -> NodeView {
    NodeView {
        path: pv.take(m),
        value: if m == pv.len() {
            v
        } else {
            Seq::empty()
        },
        children: if m == pv.len() {
            Seq::empty()
        } else {
            seq![pv[m]]
        },
        permissions: spec_inherit(anchor.permissions, dom_id),
    }
}

/// When a write (or a directory creation) at `pv` succeeds: either
/// the node exists and the domain may write it, or it is missing and
/// the nearest existing ancestor exists and is writable.
pub open spec fn write_ok(
    nodes: Seq<NodeView>,
    changes: Seq<ChangeView>,
    dom_id: DomainId,
    pv: PathView,
) -> bool {
    match eff_lookup(nodes, changes, pv) {
        Some(n) => spec_perms_ok(dom_id, n.permissions, PERM_WRITE),
        None => {
            let k = anc_len(nodes, changes, pv, pv.len() - 1);
            &&& eff_lookup(nodes, changes, pv.take(k)) matches Some(a) && spec_perms_ok(
                dom_id,
                a.permissions,
                PERM_WRITE,
            )
        },
    }
}

/// How a successful write at `pv` changes what a reader sees.
/// An existing node keeps everything but its value; a missing one is
/// created together with its missing ancestors, which are linked into
/// the nearest existing ancestor. Nothing else changes.
pub open spec fn write_updated(
    nodes: Seq<NodeView>,
    changes: Seq<ChangeView>,
    changes2: Seq<ChangeView>,
    dom_id: DomainId,
    pv: PathView,
    v: Seq<char>,
) -> bool {
    match eff_lookup(nodes, changes, pv) {
        Some(n) => {
            &&& (forall|q: PathView|
                q != pv ==> #[trigger] eff_lookup(nodes, changes2, q) == eff_lookup(
                    nodes,
                    changes,
                    q,
                ))
            &&& eff_lookup(nodes, changes2, pv) == Some(NodeView { value: v, ..n })
        },
        None => {
            let k = anc_len(nodes, changes, pv, pv.len() - 1);
            let anchor = eff_lookup(nodes, changes, pv.take(k))->Some_0;
            &&& (forall|q: PathView|
                !(k <= q.len() <= pv.len() && q == pv.take(q.len() as int))
                    ==> #[trigger] eff_lookup(nodes, changes2, q) == eff_lookup(nodes, changes, q))
            &&& (forall|m: int|
                k < m <= pv.len() ==> #[trigger] eff_lookup(nodes, changes2, pv.take(m)) == Some(
                    chain_node(anchor, dom_id, pv, v, m),
                ))
            &&& (eff_lookup(nodes, changes2, pv.take(k)) matches Some(a2) && a2.path == anchor.path
                && a2.value == anchor.value && a2.permissions == anchor.permissions && children_wf(
                a2.children,
            ) && (forall|c: Seq<char>|
                a2.children.contains(c) <==> (anchor.children.contains(c) || c == pv[k])))
        },
    }
}

/// When removing the subtree at `pv` succeeds: the node and its
/// parent exist, and the parent, the node, and everything below it
/// accept writes from `dom_id`.
pub open spec fn rm_ok(
    nodes: Seq<NodeView>,
    changes: Seq<ChangeView>,
    dom_id: DomainId,
    pv: PathView,
) -> bool {
    &&& pv.len() > 0
    &&& (eff_lookup(nodes, changes, pv.drop_last()) matches Some(par) && spec_perms_ok(
        dom_id,
        par.permissions,
        PERM_WRITE,
    ))
    &&& (eff_lookup(nodes, changes, pv) matches Some(n) && spec_perms_ok(
        dom_id,
        n.permissions,
        PERM_WRITE,
    ))
    &&& (forall|q: PathView|
        pv.is_prefix_of(q) ==> ((#[trigger] eff_lookup(nodes, changes, q)) matches Some(n2)
            ==> spec_perms_ok(dom_id, n2.permissions, PERM_WRITE)))
}

/// How a successful removal at `pv` changes what a reader sees: the
/// basename leaves the parent's child list, every node at or below
/// `pv` is gone, and nothing else changes.
pub open spec fn rm_updated(
    nodes: Seq<NodeView>,
    changes: Seq<ChangeView>,
    changes2: Seq<ChangeView>,
    pv: PathView,
) -> bool {
    let parentv = pv.drop_last();
    let par = eff_lookup(nodes, changes, parentv)->Some_0;
    &&& (forall|q: PathView|
        (!pv.is_prefix_of(q) && q != parentv) ==> #[trigger] eff_lookup(nodes, changes2, q)
            == eff_lookup(nodes, changes, q))
    &&& (forall|q: PathView|
        pv.is_prefix_of(q) ==> (#[trigger] eff_lookup(nodes, changes2, q)) is None)
    &&& (eff_lookup(nodes, changes2, parentv) matches Some(p2) && p2.path == par.path && p2.value
        == par.value && p2.permissions == par.permissions && children_wf(p2.children) && (forall|
        c: Seq<char>,
    |
        p2.children.contains(c) <==> (par.children.contains(c) && c != pv.last())))
}

/// A write keeps the tree shape: every node still sits at its own
/// path under its parent, and every child link still resolves.
pub proof fn lemma_write_preserves_tree(
    nodes: Seq<NodeView>,
    changes: Seq<ChangeView>,
    changes2: Seq<ChangeView>,
    dom_id: DomainId,
    pv: PathView,
    v: Seq<char>,
)
    requires
        eff_tree_wf(nodes, changes),
        path_wf(pv),
        write_ok(nodes, changes, dom_id, pv),
        write_updated(nodes, changes, changes2, dom_id, pv, v),
    ensures
        eff_tree_wf(nodes, changes2),
{
    match eff_lookup(nodes, changes, pv) {
        Some(n) => {
            lemma_overwrite_preserves_tree(nodes, changes, changes2, dom_id, pv, v);
        }
        None => {
            lemma_chain_root(nodes, changes, changes2, dom_id, pv, v);
            lemma_chain_wf(nodes, changes, changes2, dom_id, pv, v);
            lemma_chain_parent(nodes, changes, changes2, dom_id, pv, v);
            lemma_chain_children(nodes, changes, changes2, dom_id, pv, v);
        }
    }
}

/// Overwriting an existing node's value keeps the tree shape.
#[verifier::spinoff_prover]
proof fn lemma_overwrite_preserves_tree(
    nodes: Seq<NodeView>,
    changes: Seq<ChangeView>,
    changes2: Seq<ChangeView>,
    dom_id: DomainId,
    pv: PathView,
    v: Seq<char>,
)
    requires
        eff_tree_wf(nodes, changes),
        path_wf(pv),
        eff_lookup(nodes, changes, pv) is Some,
        write_updated(nodes, changes, changes2, dom_id, pv, v),
    ensures
        eff_tree_wf(nodes, changes2),
{
    let n = eff_lookup(nodes, changes, pv)->Some_0;
    let n2 = NodeView { value: v, ..n };
    assert(eff_lookup(nodes, changes2, Seq::empty()) is Some) by {
        if Seq::<Seq<char>>::empty() != pv {
            assert(eff_lookup(nodes, changes2, Seq::empty()) == eff_lookup(
                nodes,
                changes,
                Seq::empty(),
            ));
        }
    }
    assert forall|p: PathView| (#[trigger] eff_lookup(nodes, changes2, p)) is Some implies (
    eff_lookup(nodes, changes2, p)->Some_0.path == p && node_wf(
        eff_lookup(nodes, changes2, p)->Some_0,
    )) by {
        if p != pv {
            assert(eff_lookup(nodes, changes2, p) == eff_lookup(nodes, changes, p));
        }
    }
    assert forall|p: PathView| ((#[trigger] eff_lookup(nodes, changes2, p)) is Some && p.len()
        > 0) implies (eff_lookup(nodes, changes2, p.drop_last()) matches Some(par)
        && par.children.contains(p.last())) by {
        let q = p.drop_last();
        if p != pv {
            assert(eff_lookup(nodes, changes2, p) == eff_lookup(nodes, changes, p));
        }
        assert(eff_lookup(nodes, changes, p) is Some);
        assert(q != p);
        if q != pv {
            assert(eff_lookup(nodes, changes2, q) == eff_lookup(nodes, changes, q));
        } else {
            assert(eff_lookup(nodes, changes2, q) == Some(n2));
            assert(n2.children == n.children);
        }
    }
    assert forall|p: PathView, c: Seq<char>|
        #![trigger eff_lookup(nodes, changes2, p.push(c))]
        (eff_lookup(nodes, changes2, p) matches Some(nn) && nn.children.contains(
            c,
        )) implies eff_lookup(nodes, changes2, p.push(c)) is Some by {
        if p != pv {
            assert(eff_lookup(nodes, changes2, p) == eff_lookup(nodes, changes, p));
        } else {
            assert(eff_lookup(nodes, changes2, p)->Some_0.children == n.children);
        }
        assert(eff_lookup(nodes, changes, p.push(c)) is Some);
        if p.push(c) != pv {
            assert(eff_lookup(nodes, changes2, p.push(c)) == eff_lookup(
                nodes,
                changes,
                p.push(c),
            ));
        }
    }
}

/// The root survives the creation of a chain.
#[verifier::spinoff_prover]
proof fn lemma_chain_root(
    nodes: Seq<NodeView>,
    changes: Seq<ChangeView>,
    changes2: Seq<ChangeView>,
    dom_id: DomainId,
    pv: PathView,
    v: Seq<char>,
)
    requires
        eff_tree_wf(nodes, changes),
        path_wf(pv),
        eff_lookup(nodes, changes, pv) is None,
        write_ok(nodes, changes, dom_id, pv),
        write_updated(nodes, changes, changes2, dom_id, pv, v),
    ensures
        eff_lookup(nodes, changes2, Seq::empty()) is Some,
{
    let k = anc_len(nodes, changes, pv, pv.len() as int - 1);
    lemma_anc_len_bounds(nodes, changes, pv, pv.len() as int - 1);
    if k == 0 {
        assert(Seq::<Seq<char>>::empty() =~= pv.take(0));
    } else {
        assert(Seq::<Seq<char>>::empty().len() == 0);
        assert(eff_lookup(nodes, changes2, Seq::empty()) == eff_lookup(
            nodes,
            changes,
            Seq::empty(),
        ));
    }
}

/// Every node of the new overlay sits at its own path, well-formed.
#[verifier::spinoff_prover]
proof fn lemma_chain_wf(
    nodes: Seq<NodeView>,
    changes: Seq<ChangeView>,
    changes2: Seq<ChangeView>,
    dom_id: DomainId,
    pv: PathView,
    v: Seq<char>,
)
    requires
        eff_tree_wf(nodes, changes),
        path_wf(pv),
        eff_lookup(nodes, changes, pv) is None,
        write_ok(nodes, changes, dom_id, pv),
        write_updated(nodes, changes, changes2, dom_id, pv, v),
    ensures
        forall|p: PathView|
            (#[trigger] eff_lookup(nodes, changes2, p)) is Some ==> (eff_lookup(
                nodes,
                changes2,
                p,
            )->Some_0.path == p && node_wf(eff_lookup(nodes, changes2, p)->Some_0)),
{
    let k = anc_len(nodes, changes, pv, pv.len() as int - 1);
    let anchor = eff_lookup(nodes, changes, pv.take(k))->Some_0;
    lemma_anc_len_bounds(nodes, changes, pv, pv.len() as int - 1);
    let a2 = eff_lookup(nodes, changes2, pv.take(k))->Some_0;
    assert(anchor.path == pv.take(k));
    assert(node_wf(anchor));
    assert forall|p: PathView| (#[trigger] eff_lookup(nodes, changes2, p)) is Some implies (
    eff_lookup(nodes, changes2, p)->Some_0.path == p && node_wf(
        eff_lookup(nodes, changes2, p)->Some_0,
    )) by {
        if p == pv.take(k) {
            assert(a2.path == anchor.path);
            assert(node_wf(a2)) by {
                assert(a2.permissions == anchor.permissions);
                assert(children_wf(a2.children));
            }
        } else if k < p.len() <= pv.len() && p == pv.take(p.len() as int) {
            let m = p.len() as int;
            assert(eff_lookup(nodes, changes2, pv.take(m)) == Some(
                chain_node(anchor, dom_id, pv, v, m),
            ));
            let cn = chain_node(anchor, dom_id, pv, v, m);
            assert(cn.path == p);
            assert(node_wf(cn)) by {
                assert forall|ii: int| 0 <= ii < cn.path.len() implies is_component(
                    #[trigger] cn.path[ii],
                ) by {
                    assert(cn.path[ii] == pv[ii]);
                }
                assert(cn.permissions.len() > 0) by {
                    assert(anchor.permissions.len() > 0);
                }
                if m < pv.len() {
                    assert(cn.children.len() == 1);
                    assert(cn.children[0] == pv[m]);
                    assert(is_component(pv[m]));
                }
            }
        } else {
            assert(eff_lookup(nodes, changes2, p) == eff_lookup(nodes, changes, p));
        }
    }
}

/// Every node of the new overlay is listed by its parent.
#[verifier::spinoff_prover]
#[verifier::rlimit(30)]
proof fn lemma_chain_parent(
    nodes: Seq<NodeView>,
    changes: Seq<ChangeView>,
    changes2: Seq<ChangeView>,
    dom_id: DomainId,
    pv: PathView,
    v: Seq<char>,
)
    requires
        eff_tree_wf(nodes, changes),
        path_wf(pv),
        eff_lookup(nodes, changes, pv) is None,
        write_ok(nodes, changes, dom_id, pv),
        write_updated(nodes, changes, changes2, dom_id, pv, v),
    ensures
        forall|p: PathView|
            ((#[trigger] eff_lookup(nodes, changes2, p)) is Some && p.len() > 0) ==> (eff_lookup(
                nodes,
                changes2,
                p.drop_last(),
            ) matches Some(par) && par.children.contains(p.last())),
{
    let k = anc_len(nodes, changes, pv, pv.len() as int - 1);
    let anchor = eff_lookup(nodes, changes, pv.take(k))->Some_0;
    lemma_anc_len_bounds(nodes, changes, pv, pv.len() as int - 1);
    let a2 = eff_lookup(nodes, changes2, pv.take(k))->Some_0;
    assert(anchor.path == pv.take(k));
    assert forall|p: PathView| ((#[trigger] eff_lookup(nodes, changes2, p)) is Some && p.len()
        > 0) implies (eff_lookup(nodes, changes2, p.drop_last()) matches Some(par)
        && par.children.contains(p.last())) by {
        let q = p.drop_last();
        if k < p.len() <= pv.len() && p == pv.take(p.len() as int) {
            let m = p.len() as int;
            assert(q =~= pv.take(m - 1));
            assert(p.last() == pv[m - 1]);
            if m - 1 == k {
                assert(eff_lookup(nodes, changes2, q) == Some(a2));
                assert(a2.children.contains(pv[k]));
            } else {
                let cn = chain_node(anchor, dom_id, pv, v, m - 1);
                assert(eff_lookup(nodes, changes2, pv.take(m - 1)) == Some(cn));
                assert(cn.children[0] == pv[m - 1]);
                assert(cn.children.contains(pv[m - 1]));
            }
        } else {
            if p == pv.take(k) {
                assert(eff_lookup(nodes, changes, p) is Some);
            } else {
                assert(eff_lookup(nodes, changes2, p) == eff_lookup(nodes, changes, p));
            }
            assert(eff_lookup(nodes, changes, p) is Some);
            assert(eff_lookup(nodes, changes, q) matches Some(pr) && pr.children.contains(
                p.last(),
            ));
            if q == pv.take(k) {
                assert(eff_lookup(nodes, changes2, q) == Some(a2));
                assert(a2.children.contains(p.last()));
            } else if k < q.len() <= pv.len() && q == pv.take(q.len() as int) {
                if q.len() == pv.len() {
                    assert(q =~= pv);
                } else {
                    assert(eff_lookup(nodes, changes, pv.take(q.len() as int)) is None);
                }
                assert(false);
            } else {
                assert(eff_lookup(nodes, changes2, q) == eff_lookup(nodes, changes, q));
            }
        }
    }
}

/// Every child link of the new overlay resolves.
#[verifier::spinoff_prover]
#[verifier::rlimit(100)]
proof fn lemma_chain_children(
    nodes: Seq<NodeView>,
    changes: Seq<ChangeView>,
    changes2: Seq<ChangeView>,
    dom_id: DomainId,
    pv: PathView,
    v: Seq<char>,
)
    requires
        forall|p: PathView, c: Seq<char>|
            #![trigger eff_lookup(nodes, changes, p.push(c))]
            (eff_lookup(nodes, changes, p) matches Some(n) && n.children.contains(c))
                ==> eff_lookup(nodes, changes, p.push(c)) is Some,
        forall|p: PathView|
            (#[trigger] eff_lookup(nodes, changes, p)) matches Some(n) ==> n.path == p && node_wf(
                n,
            ),
        path_wf(pv),
        eff_lookup(nodes, changes, pv) is None,
        write_ok(nodes, changes, dom_id, pv),
        write_updated(nodes, changes, changes2, dom_id, pv, v),
    ensures
        forall|p: PathView, c: Seq<char>|
            #![trigger eff_lookup(nodes, changes2, p.push(c))]
            (eff_lookup(nodes, changes2, p) matches Some(nn) && nn.children.contains(c))
                ==> eff_lookup(nodes, changes2, p.push(c)) is Some,
{
    let k = anc_len(nodes, changes, pv, pv.len() as int - 1);
    let anchor = eff_lookup(nodes, changes, pv.take(k))->Some_0;
    lemma_anc_len_bounds(nodes, changes, pv, pv.len() as int - 1);
    let a2 = eff_lookup(nodes, changes2, pv.take(k))->Some_0;
    assert(pv.len() > 0) by {
        if pv.len() == 0 {
            assert(pv.take(0) =~= pv);
        }
    }
    assert(0 <= k < pv.len());
    assert forall|p: PathView, c: Seq<char>|
        #![trigger eff_lookup(nodes, changes2, p.push(c))]
        (eff_lookup(nodes, changes2, p) matches Some(nn) && nn.children.contains(
            c,
        )) implies eff_lookup(nodes, changes2, p.push(c)) is Some by {
        let pc = p.push(c);
        assert(pc.drop_last() =~= p);
        assert(pc.last() == c);
        if p == pv.take(k) {
            if c == pv[k] {
                assert(pc =~= pv.take(k + 1));
                assert(eff_lookup(nodes, changes2, pv.take(k + 1)) == Some(
                    chain_node(anchor, dom_id, pv, v, k + 1),
                ));
            } else {
                assert(anchor.children.contains(c));
                assert(eff_lookup(nodes, changes, pc) is Some);
                assert(!(k <= pc.len() <= pv.len() && pc == pv.take(pc.len() as int))) by {
                    if pc == pv.take(pc.len() as int) {
                        assert(pc.len() == k + 1);
                        assert(pc.last() == pv.take(k + 1).last());
                        assert(pv.take(k + 1).last() == pv[k]);
                    }
                }
                assert(eff_lookup(nodes, changes2, pc) == eff_lookup(nodes, changes, pc));
            }
        } else if k < p.len() <= pv.len() && p == pv.take(p.len() as int) {
            let m = p.len() as int;
            let cn = chain_node(anchor, dom_id, pv, v, m);
            assert(eff_lookup(nodes, changes2, p) == Some(cn));
            if m < pv.len() {
                assert(cn.children.len() == 1);
                assert(c == pv[m]);
                assert(pc =~= pv.take(m + 1));
                assert(eff_lookup(nodes, changes2, pv.take(m + 1)) == Some(
                    chain_node(anchor, dom_id, pv, v, m + 1),
                ));
            } else {
                assert(cn.children.len() == 0);
            }
        } else {
            assert(eff_lookup(nodes, changes2, p) == eff_lookup(nodes, changes, p));
            assert(eff_lookup(nodes, changes, pc) is Some);
            if k <= pc.len() <= pv.len() && pc == pv.take(pc.len() as int) {
                if pc.len() == k {
                    assert(eff_lookup(nodes, changes2, pc) == Some(a2));
                } else {
                    assert(eff_lookup(nodes, changes2, pv.take(pc.len() as int)) == Some(
                        chain_node(anchor, dom_id, pv, v, pc.len() as int),
                    ));
                }
            } else {
                assert(eff_lookup(nodes, changes2, pc) == eff_lookup(nodes, changes, pc));
            }
        }
    }
}

/// Within one overlay view, a written value reads back: after a
/// successful write of `v` at `pv`, the node there carries `v` — and
/// a freshly created node is readable by its creator. (A node that
/// already existed keeps its permissions, so a domain holding write
/// but not read access can write a value it may not read back.)
pub proof fn lemma_write_then_read(
    nodes: Seq<NodeView>,
    changes: Seq<ChangeView>,
    changes2: Seq<ChangeView>,
    dom_id: DomainId,
    pv: PathView,
    v: Seq<char>,
)
    requires
        write_ok(nodes, changes, dom_id, pv),
        write_updated(nodes, changes, changes2, dom_id, pv, v),
    ensures
        eff_lookup(nodes, changes2, pv) matches Some(n) && n.value == v,
        eff_lookup(nodes, changes, pv) is None ==> spec_perms_ok(
            dom_id,
            eff_lookup(nodes, changes2, pv)->Some_0.permissions,
            PERM_READ,
        ),
{
    match eff_lookup(nodes, changes, pv) {
        Some(_) => {}
        None => {
            let k = anc_len(nodes, changes, pv, pv.len() as int - 1);
            let anchor = eff_lookup(nodes, changes, pv.take(k))->Some_0;
            lemma_anc_len_bounds(nodes, changes, pv, pv.len() as int - 1);
            assert(pv.len() > 0) by {
                if pv.len() == 0 {
                    assert(pv.take(0) =~= pv);
                }
            }
            assert(eff_lookup(nodes, changes2, pv.take(pv.len() as int)) == Some(
                chain_node(anchor, dom_id, pv, v, pv.len() as int),
            ));
            assert(pv.take(pv.len() as int) =~= pv);
            let inherited = spec_inherit(anchor.permissions, dom_id);
            assert(spec_perms_ok(dom_id, inherited, PERM_READ)) by {
                if dom_id != DOM0_DOMAIN_ID {
                    assert(inherited[0].id == dom_id);
                }
                assert(PERM_READ & (PERM_READ | PERM_WRITE | PERM_OWNER) == PERM_READ)
                    by (bit_vector);
            }
        }
    }
}

/// Replacing a node's permission list and reading it back yields
/// exactly the list that was set.
pub proof fn lemma_set_then_get_perms(
    nodes: Seq<NodeView>,
    changes: Seq<ChangeView>,
    changes2: Seq<ChangeView>,
    pv: PathView,
    ps: Seq<Permission>,
)
    requires
        eff_lookup(nodes, changes, pv) is Some,
        eff_lookup(nodes, changes2, pv) == Some(
            NodeView { permissions: ps, ..eff_lookup(nodes, changes, pv)->Some_0 },
        ),
    ensures
        eff_lookup(nodes, changes2, pv) matches Some(n) && n.permissions == ps,
{
}

/// Creating a directory is idempotent: after one successful creation
/// the node exists and stays writable by its creator, so a second
/// creation leaves the overlay exactly as it found it.
pub proof fn lemma_mkdir_idempotent(
    nodes: Seq<NodeView>,
    changes: Seq<ChangeView>,
    changes2: Seq<ChangeView>,
    dom_id: DomainId,
    pv: PathView,
)
    requires
        eff_tree_wf(nodes, changes),
        path_wf(pv),
        write_ok(nodes, changes, dom_id, pv),
        (match eff_lookup(nodes, changes, pv) {
            Some(_) => changes2 == changes,
            None => write_updated(nodes, changes, changes2, dom_id, pv, Seq::<char>::empty()),
        }),
    ensures
        eff_lookup(nodes, changes2, pv) is Some,
        write_ok(nodes, changes2, dom_id, pv),
{
    match eff_lookup(nodes, changes, pv) {
        Some(_) => {}
        None => {
            let k = anc_len(nodes, changes, pv, pv.len() as int - 1);
            let anchor = eff_lookup(nodes, changes, pv.take(k))->Some_0;
            lemma_anc_len_bounds(nodes, changes, pv, pv.len() as int - 1);
            assert(pv.len() > 0) by {
                if pv.len() == 0 {
                    assert(pv.take(0) =~= pv);
                }
            }
            assert(eff_lookup(nodes, changes2, pv.take(pv.len() as int)) == Some(
                chain_node(anchor, dom_id, pv, Seq::<char>::empty(), pv.len() as int),
            ));
            assert(pv.take(pv.len() as int) =~= pv);
            let inherited = spec_inherit(anchor.permissions, dom_id);
            assert(node_wf(anchor)) by {
                lemma_eff_node_wf_free(nodes, changes, pv.take(k));
            }
            assert(spec_perms_ok(dom_id, inherited, PERM_WRITE)) by {
                if dom_id != DOM0_DOMAIN_ID {
                    assert(inherited[0].id == dom_id);
                }
                assert(PERM_WRITE & (PERM_READ | PERM_WRITE | PERM_OWNER) == PERM_WRITE)
                    by (bit_vector);
            }
        }
    }
}

/// A node that resolves through a well-formed view is well-formed.
proof fn lemma_eff_node_wf_free(nodes: Seq<NodeView>, changes: Seq<ChangeView>, p: PathView)
    requires
        eff_tree_wf(nodes, changes),
        eff_lookup(nodes, changes, p) is Some,
    ensures
        node_wf(eff_lookup(nodes, changes, p)->Some_0),
{
}

/// A committed overlay's tree shape carries over to the new store:
/// after an apply, the store alone shows the tree the overlay showed.
pub proof fn lemma_apply_preserves_tree(
    old_nodes: Seq<NodeView>,
    changes: Seq<ChangeView>,
    new_nodes: Seq<NodeView>,
)
    requires
        eff_tree_wf(old_nodes, changes),
        forall|q: PathView|
            #![trigger find_node(new_nodes, q)]
            find_node(new_nodes, q) == eff_lookup(old_nodes, changes, q),
    ensures
        store_tree_wf(new_nodes),
{
    let empty = Seq::<ChangeView>::empty();
    assert forall|q: PathView| #[trigger] eff_lookup(new_nodes, empty, q) == eff_lookup(
        old_nodes,
        changes,
        q,
    ) by {
        assert(find_change(empty, q) is None);
        assert(find_node(new_nodes, q) == eff_lookup(old_nodes, changes, q));
    }
    assert(eff_lookup(new_nodes, empty, Seq::empty()) is Some);
    assert forall|p: PathView| (#[trigger] eff_lookup(new_nodes, empty, p)) is Some implies (
    eff_lookup(new_nodes, empty, p)->Some_0.path == p && node_wf(
        eff_lookup(new_nodes, empty, p)->Some_0,
    )) by {
        assert(eff_lookup(new_nodes, empty, p) == eff_lookup(old_nodes, changes, p));
    }
    assert forall|p: PathView| ((#[trigger] eff_lookup(new_nodes, empty, p)) is Some && p.len()
        > 0) implies (eff_lookup(new_nodes, empty, p.drop_last()) matches Some(par)
        && par.children.contains(p.last())) by {
        assert(eff_lookup(new_nodes, empty, p) == eff_lookup(old_nodes, changes, p));
        assert(eff_lookup(new_nodes, empty, p.drop_last()) == eff_lookup(
            old_nodes,
            changes,
            p.drop_last(),
        ));
    }
    assert forall|p: PathView, c: Seq<char>|
        #![trigger eff_lookup(new_nodes, empty, p.push(c))]
        (eff_lookup(new_nodes, empty, p) matches Some(n) && n.children.contains(
            c,
        )) implies eff_lookup(new_nodes, empty, p.push(c)) is Some by {
        assert(eff_lookup(new_nodes, empty, p) == eff_lookup(old_nodes, changes, p));
        assert(eff_lookup(new_nodes, empty, p.push(c)) == eff_lookup(
            old_nodes,
            changes,
            p.push(c),
        ));
    }
}

/// Replacing one node's permission list keeps the tree shape: paths,
/// parents, and children are untouched.
#[verifier::spinoff_prover]
pub proof fn lemma_setperms_preserves_tree(
    nodes: Seq<NodeView>,
    changes: Seq<ChangeView>,
    changes2: Seq<ChangeView>,
    pv: PathView,
    ps: Seq<Permission>,
)
    requires
        eff_tree_wf(nodes, changes),
        ps.len() > 0,
        eff_lookup(nodes, changes, pv) is Some,
        forall|q: PathView|
            q != pv ==> #[trigger] eff_lookup(nodes, changes2, q) == eff_lookup(nodes, changes, q),
        eff_lookup(nodes, changes2, pv) == Some(
            NodeView { permissions: ps, ..eff_lookup(nodes, changes, pv)->Some_0 },
        ),
    ensures
        eff_tree_wf(nodes, changes2),
{
    let n = eff_lookup(nodes, changes, pv)->Some_0;
    let n2 = NodeView { permissions: ps, ..n };
    assert(eff_lookup(nodes, changes2, Seq::empty()) is Some) by {
        if Seq::<Seq<char>>::empty() != pv {
            assert(eff_lookup(nodes, changes2, Seq::empty()) == eff_lookup(
                nodes,
                changes,
                Seq::empty(),
            ));
        }
    }
    assert forall|p: PathView| (#[trigger] eff_lookup(nodes, changes2, p)) is Some implies (
    eff_lookup(nodes, changes2, p)->Some_0.path == p && node_wf(
        eff_lookup(nodes, changes2, p)->Some_0,
    )) by {
        if p != pv {
            assert(eff_lookup(nodes, changes2, p) == eff_lookup(nodes, changes, p));
        } else {
            assert(node_wf(n));
        }
    }
    assert forall|p: PathView| ((#[trigger] eff_lookup(nodes, changes2, p)) is Some && p.len()
        > 0) implies (eff_lookup(nodes, changes2, p.drop_last()) matches Some(par)
        && par.children.contains(p.last())) by {
        let q = p.drop_last();
        if p != pv {
            assert(eff_lookup(nodes, changes2, p) == eff_lookup(nodes, changes, p));
        }
        assert(eff_lookup(nodes, changes, p) is Some);
        assert(q != p);
        if q != pv {
            assert(eff_lookup(nodes, changes2, q) == eff_lookup(nodes, changes, q));
        } else {
            assert(eff_lookup(nodes, changes2, q) == Some(n2));
            assert(n2.children == n.children);
        }
    }
    assert forall|p: PathView, c: Seq<char>|
        #![trigger eff_lookup(nodes, changes2, p.push(c))]
        (eff_lookup(nodes, changes2, p) matches Some(nn) && nn.children.contains(
            c,
        )) implies eff_lookup(nodes, changes2, p.push(c)) is Some by {
        if p != pv {
            assert(eff_lookup(nodes, changes2, p) == eff_lookup(nodes, changes, p));
        } else {
            assert(eff_lookup(nodes, changes2, p)->Some_0.children == n.children);
        }
        assert(eff_lookup(nodes, changes, p.push(c)) is Some);
        if p.push(c) != pv {
            assert(eff_lookup(nodes, changes2, p.push(c)) == eff_lookup(
                nodes,
                changes,
                p.push(c),
            ));
        }
    }
}

/// Removing a subtree keeps the tree shape: the basename leaves the
/// parent, nothing below the removed path survives, and every other
/// node keeps its place and links.
#[verifier::spinoff_prover]
#[verifier::rlimit(30)]
pub proof fn lemma_rm_preserves_tree(
    nodes: Seq<NodeView>,
    changes: Seq<ChangeView>,
    changes2: Seq<ChangeView>,
    pv: PathView,
)
    requires
        eff_tree_wf(nodes, changes),
        pv.len() > 0,
        eff_lookup(nodes, changes, pv.drop_last()) is Some,
        rm_updated(nodes, changes, changes2, pv),
    ensures
        eff_tree_wf(nodes, changes2),
{
    let parentv = pv.drop_last();
    let par = eff_lookup(nodes, changes, parentv)->Some_0;
    let p2 = eff_lookup(nodes, changes2, parentv)->Some_0;
    assert(par.path == parentv);
    assert(node_wf(par));
    assert(eff_lookup(nodes, changes2, Seq::empty()) is Some) by {
        let root = Seq::<Seq<char>>::empty();
        assert(!pv.is_prefix_of(root));
        if root != parentv {
            assert(eff_lookup(nodes, changes2, root) == eff_lookup(nodes, changes, root));
        }
    }
    assert forall|p: PathView| (#[trigger] eff_lookup(nodes, changes2, p)) is Some implies (
    eff_lookup(nodes, changes2, p)->Some_0.path == p && node_wf(
        eff_lookup(nodes, changes2, p)->Some_0,
    )) by {
        assert(!pv.is_prefix_of(p));
        if p != parentv {
            assert(eff_lookup(nodes, changes2, p) == eff_lookup(nodes, changes, p));
        } else {
            assert(p2.path == par.path && p2.value == par.value && p2.permissions
                == par.permissions && children_wf(p2.children));
        }
    }
    assert forall|p: PathView| ((#[trigger] eff_lookup(nodes, changes2, p)) is Some && p.len()
        > 0) implies (eff_lookup(nodes, changes2, p.drop_last()) matches Some(pr)
        && pr.children.contains(p.last())) by {
        let q = p.drop_last();
        assert(!pv.is_prefix_of(p));
        if p != parentv {
            assert(eff_lookup(nodes, changes2, p) == eff_lookup(nodes, changes, p));
        }
        assert(eff_lookup(nodes, changes, p) is Some);
        assert(eff_lookup(nodes, changes, q) matches Some(prq) && prq.children.contains(p.last()));
        assert(!pv.is_prefix_of(q)) by {
            if pv.is_prefix_of(q) {
                // then the node itself would sit below the removed
                // path, and it would be gone
                assert(pv.is_prefix_of(p)) by {
                    assert(q =~= p.take(q.len() as int));
                    assert(pv =~= q.subrange(0, pv.len() as int));
                    assert(pv =~= p.subrange(0, pv.len() as int));
                }
                assert(false);
            }
        }
        if q == parentv {
            assert(eff_lookup(nodes, changes2, q) == Some(p2));
            assert(p.last() != pv.last()) by {
                if p.last() == pv.last() {
                    assert(p =~= pv);
                    assert(pv.is_prefix_of(p)) by {
                        assert(pv =~= p.subrange(0, pv.len() as int));
                    }
                }
            }
            assert(p2.children.contains(p.last()));
        } else {
            assert(eff_lookup(nodes, changes2, q) == eff_lookup(nodes, changes, q));
        }
    }
    assert forall|p: PathView, c: Seq<char>|
        #![trigger eff_lookup(nodes, changes2, p.push(c))]
        (eff_lookup(nodes, changes2, p) matches Some(nn) && nn.children.contains(
            c,
        )) implies eff_lookup(nodes, changes2, p.push(c)) is Some by {
        let pc = p.push(c);
        assert(pc.drop_last() =~= p);
        assert(pc.last() == c);
        assert(!pv.is_prefix_of(p));
        if p == parentv {
            assert(eff_lookup(nodes, changes2, p) == Some(p2));
            assert(par.children.contains(c) && c != pv.last());
            assert(eff_lookup(nodes, changes, pc) is Some);
            assert(!pv.is_prefix_of(pc)) by {
                if pv.is_prefix_of(pc) {
                    assert(pv =~= pc.subrange(0, pv.len() as int));
                    assert(pv.last() == c);
                }
            }
            assert(pc != parentv);
            assert(eff_lookup(nodes, changes2, pc) == eff_lookup(nodes, changes, pc));
        } else {
            assert(eff_lookup(nodes, changes2, p) == eff_lookup(nodes, changes, p));
            assert(eff_lookup(nodes, changes, pc) is Some);
            assert(!pv.is_prefix_of(pc)) by {
                if pv.is_prefix_of(pc) {
                    // the removed path reaches exactly one step below
                    // `p`, which would make `p` its parent
                    assert(pv.len() <= pc.len());
                    if pv.len() == pc.len() {
                        assert(pv =~= pc);
                        assert(p =~= pv.drop_last());
                        assert(false);
                    } else {
                        assert(pv.is_prefix_of(p)) by {
                            assert(pv =~= pc.subrange(0, pv.len() as int));
                            assert(pv =~= p.subrange(0, pv.len() as int));
                        }
                        assert(false);
                    }
                }
            }
            if pc == parentv {
                assert(eff_lookup(nodes, changes2, pc) == Some(p2));
            } else {
                assert(eff_lookup(nodes, changes2, pc) == eff_lookup(nodes, changes, pc));
            }
        }
    }
}

/// The anchor found for a missing path is a true prefix of it, and
/// everything strictly between the anchor and the path is absent.
pub proof fn lemma_anc_len_bounds(
    nodes: Seq<NodeView>,
    changes: Seq<ChangeView>,
    pv: PathView,
    from: int,
)
    requires
        from < pv.len(),
    ensures
        0 <= anc_len(nodes, changes, pv, from) <= from || anc_len(nodes, changes, pv, from) == 0,
        0 <= anc_len(nodes, changes, pv, from),
        anc_len(nodes, changes, pv, from) <= from || anc_len(nodes, changes, pv, from) == 0,
        forall|m: int|
            anc_len(nodes, changes, pv, from) < m <= from ==> eff_lookup(
                nodes,
                changes,
                #[trigger] pv.take(m),
            ) is None,
    decreases (if from > 0 {
        from
    } else {
        0
    }),
{
    if from > 0 && eff_lookup(nodes, changes, pv.take(from)) is None {
        lemma_anc_len_bounds(nodes, changes, pv, from - 1);
    }
}

/// The mathematical value of a commit record.
#[verifier::ext_equal]
pub enum AppliedChangeView {
    Write(PathView, Seq<Permission>),
    Remove(PathView),
    IntroduceDomain,
    ReleaseDomain,
}

/// A commit record emitted by `apply`, consumed by watch firing.
/// Writes keep their permissions so a watch's read permission can be
/// re-checked at fire time; the two domain records stand for the
/// pseudo-events of the sentinel watch paths.
#[derive(Debug)]
pub enum AppliedChange {
    Write(Path, Vec<Permission>),
    Remove(Path),
    IntroduceDomain,
    ReleaseDomain,
}

impl View for AppliedChange {
    type V = AppliedChangeView;

    open spec fn view(&self) -> AppliedChangeView {
        match *self {
            AppliedChange::Write(ref p, ref perms) => AppliedChangeView::Write(p@, perms@),
            AppliedChange::Remove(ref p) => AppliedChangeView::Remove(p@),
            AppliedChange::IntroduceDomain => AppliedChangeView::IntroduceDomain,
            AppliedChange::ReleaseDomain => AppliedChangeView::ReleaseDomain,
        }
    }
}

impl DeepView for AppliedChange {
    type V = AppliedChangeView;

    open spec fn deep_view(&self) -> AppliedChangeView {
        self@
    }
}

/// Whether `dom_id` may act with mode `perm` on what this record
/// describes; records without permissions refuse nobody.
pub open spec fn spec_applied_perms_ok(c: AppliedChangeView, dom_id: DomainId, perm: Perm) -> bool {
    match c {
        AppliedChangeView::Write(_, perms) => spec_perms_ok(dom_id, perms, perm),
        _ => true,
    }
}

impl AppliedChange {
    /// Re-checks a permission against the recorded list.
    pub fn perms_ok(&self, dom_id: DomainId, perm: Perm) -> (r: bool)
        ensures
            r == spec_applied_perms_ok(self@, dom_id, perm),
    {
        match *self {
            AppliedChange::Write(_, ref permissions) => perms_ok(dom_id, permissions, perm),
            AppliedChange::Remove(_) => true,
            AppliedChange::IntroduceDomain => true,
            AppliedChange::ReleaseDomain => true,
        }
    }
}

/// The commit record a recorded mutation turns into when applied.
pub open spec fn applied_of(c: ChangeView) -> AppliedChangeView {
    match c {
        ChangeView::Write(n) => AppliedChangeView::Write(n.path, n.permissions),
        ChangeView::Remove(n) => AppliedChangeView::Remove(n.path),
    }
}

/// The running state of a removal: outside the subtree only the
/// parent changed; inside it entries only disappear; and whatever
/// disappeared had been checked writable.
pub open spec fn rm_partial(
    nodes: Seq<NodeView>,
    csv: Seq<ChangeView>,
    c2: Seq<ChangeView>,
    dom_id: DomainId,
    pv: PathView,
    parent2v: NodeView,
) -> bool {
    &&& (forall|q: PathView|
        (!pv.is_prefix_of(q) && q != pv.drop_last()) ==> #[trigger] eff_lookup(nodes, c2, q)
            == eff_lookup(nodes, csv, q))
    &&& (forall|q: PathView|
        pv.is_prefix_of(q) ==> ((#[trigger] eff_lookup(nodes, c2, q)) == eff_lookup(nodes, csv, q)
            || eff_lookup(nodes, c2, q) is None))
    &&& eff_lookup(nodes, c2, pv.drop_last()) == Some(parent2v)
    &&& (forall|q: PathView|
        (pv.is_prefix_of(q) && (#[trigger] eff_lookup(nodes, c2, q)) is None) ==> (eff_lookup(
            nodes,
            csv,
            q,
        ) matches Some(nn) ==> spec_perms_ok(dom_id, nn.permissions, PERM_WRITE)))
}

/// Recording one more removal of a checked, present subtree node
/// keeps the removal state.
proof fn lemma_rm_step(
    nodes: Seq<NodeView>,
    csv: Seq<ChangeView>,
    before: Seq<ChangeView>,
    after: Seq<ChangeView>,
    dom_id: DomainId,
    pv: PathView,
    parent2v: NodeView,
    nv: NodeView,
)
    requires
        rm_partial(nodes, csv, before, dom_id, pv, parent2v),
        pv.len() > 0,
        pv.is_prefix_of(nv.path),
        eff_lookup(nodes, csv, nv.path) == Some(nv),
        spec_perms_ok(dom_id, nv.permissions, PERM_WRITE),
        forall|q: PathView|
            #![trigger find_change(after, q)]
            find_change(after, q) == (if q == nv.path {
                Some(ChangeView::Remove(nv))
            } else {
                find_change(before, q)
            }),
    ensures
        rm_partial(nodes, csv, after, dom_id, pv, parent2v),
{
    let t = nv.path;
    let parentv = pv.drop_last();
    assert(parentv.len() < pv.len());
    assert(!pv.is_prefix_of(parentv));
    assert forall|q: PathView| (!pv.is_prefix_of(q) && q != parentv) implies #[trigger] eff_lookup(
        nodes,
        after,
        q,
    ) == eff_lookup(nodes, csv, q) by {
        assert(q != t);
        assert(find_change(after, q) == find_change(before, q));
        assert(eff_lookup(nodes, before, q) == eff_lookup(nodes, csv, q));
    }
    assert forall|q: PathView| pv.is_prefix_of(q) implies ((#[trigger] eff_lookup(nodes, after, q))
        == eff_lookup(nodes, csv, q) || eff_lookup(nodes, after, q) is None) by {
        if q != t {
            assert(find_change(after, q) == find_change(before, q));
            assert(eff_lookup(nodes, before, q) == eff_lookup(nodes, csv, q) || eff_lookup(
                nodes,
                before,
                q,
            ) is None);
        }
    }
    assert(eff_lookup(nodes, after, parentv) == Some(parent2v)) by {
        assert(parentv != t);
        assert(find_change(after, parentv) == find_change(before, parentv));
    }
    assert forall|q: PathView| (pv.is_prefix_of(q) && (#[trigger] eff_lookup(nodes, after, q))
        is None) implies (eff_lookup(nodes, csv, q) matches Some(nn) ==> spec_perms_ok(
        dom_id,
        nn.permissions,
        PERM_WRITE,
    )) by {
        if q != t {
            assert(find_change(after, q) == find_change(before, q));
            assert(eff_lookup(nodes, before, q) is None);
        }
    }
}

/// A node that resolves through a well-formed overlay over a
/// well-formed store is itself well-formed and sits at its own path.
pub proof fn lemma_eff_node_wf(nodes: Seq<NodeView>, changes: Seq<ChangeView>, p: PathView)
    requires
        nodes_wf(nodes),
        changes_wf(changes),
        eff_lookup(nodes, changes, p) is Some,
    ensures
        node_wf(eff_lookup(nodes, changes, p)->Some_0),
        eff_lookup(nodes, changes, p)->Some_0.path == p,
{
    lemma_find_change_present(changes, p);
    lemma_find_node_present(nodes, p);
    match find_change(changes, p) {
        Some(c) => {
            let i = choose|i: int| 0 <= i < changes.len() && #[trigger] changes[i] == c;
            assert(node_wf(change_node(changes[i])));
        }
        None => {
            let n = find_node(nodes, p)->Some_0;
            let i = choose|i: int| 0 <= i < nodes.len() && #[trigger] nodes[i] == n;
            assert(node_wf(nodes[i]));
        }
    }
}

/// A found node is in the list, keyed by the sought path.
pub proof fn lemma_find_node_present(nodes: Seq<NodeView>, p: PathView)
    ensures
        find_node(nodes, p) is Some <==> exists|i: int|
            0 <= i < nodes.len() && (#[trigger] nodes[i]).path == p,
        find_node(nodes, p) matches Some(n) ==> n.path == p && exists|i: int|
            0 <= i < nodes.len() && #[trigger] nodes[i] == n,
    decreases nodes.len(),
{
    if nodes.len() > 0 {
        if nodes[0].path == p {
        } else {
            lemma_find_node_present(nodes.drop_first(), p);
            if find_node(nodes.drop_first(), p) is Some {
                let i = choose|i: int|
                    0 <= i < nodes.drop_first().len() && (#[trigger] nodes.drop_first()[i]).path
                        == p;
                assert(nodes[i + 1].path == p);
                let n = find_node(nodes.drop_first(), p)->Some_0;
                let j = choose|j: int|
                    0 <= j < nodes.drop_first().len() && #[trigger] nodes.drop_first()[j] == n;
                assert(nodes[j + 1] == n);
            }
            if exists|i: int| 0 <= i < nodes.len() && (#[trigger] nodes[i]).path == p {
                let i = choose|i: int| 0 <= i < nodes.len() && (#[trigger] nodes[i]).path == p;
                assert(nodes.drop_first()[i - 1].path == p);
            }
        }
    }
}

/// Replacing the node that carries `n.path` changes only that entry.
pub proof fn lemma_find_node_update(nodes: Seq<NodeView>, i: int, n: NodeView, q: PathView)
    requires
        0 <= i < nodes.len(),
        nodes[i].path == n.path,
        forall|a: int, b: int|
            0 <= a < b < nodes.len() ==> (#[trigger] nodes[a]).path != (#[trigger] nodes[b]).path,
    ensures
        find_node(nodes.update(i, n), q) == (if q == n.path {
            Some(n)
        } else {
            find_node(nodes, q)
        }),
    decreases nodes.len(),
{
    if i == 0 {
        assert(nodes.update(0, n)[0] == n);
        assert(nodes.update(0, n).drop_first() =~= nodes.drop_first());
        if q == n.path && nodes[0].path != q {
            lemma_find_node_present(nodes.drop_first(), q);
            if find_node(nodes.drop_first(), q) is Some {
                let j = choose|j: int|
                    0 <= j < nodes.drop_first().len() && (#[trigger] nodes.drop_first()[j]).path
                        == q;
                assert(nodes[j + 1].path == q);
                assert(nodes[0].path == n.path);
                assert(false);
            }
        }
    } else {
        assert(nodes.update(i, n)[0] == nodes[0]);
        assert(nodes.update(i, n).drop_first() =~= nodes.drop_first().update(i - 1, n));
        assert forall|a: int, b: int| 0 <= a < b < nodes.drop_first().len() implies (
        #[trigger] nodes.drop_first()[a]).path != (#[trigger] nodes.drop_first()[b]).path by {
            assert(nodes[a + 1].path != nodes[b + 1].path);
        }
        lemma_find_node_update(nodes.drop_first(), i - 1, n, q);
        if nodes[0].path == q {
            assert(nodes[0].path != nodes[i].path);
        }
    }
}

/// Appending a node under a fresh path changes only that path.
pub proof fn lemma_find_node_push(nodes: Seq<NodeView>, n: NodeView, q: PathView)
    requires
        forall|a: int| 0 <= a < nodes.len() ==> (#[trigger] nodes[a]).path != n.path,
    ensures
        find_node(nodes.push(n), q) == (if q == n.path {
            Some(n)
        } else {
            find_node(nodes, q)
        }),
    decreases nodes.len(),
{
    if nodes.len() == 0 {
        assert(nodes.push(n)[0] == n);
        assert(nodes.push(n).drop_first() =~= Seq::<NodeView>::empty());
    } else {
        assert(nodes.push(n)[0] == nodes[0]);
        assert(nodes.push(n).drop_first() =~= nodes.drop_first().push(n));
        assert forall|a: int| 0 <= a < nodes.drop_first().len() implies (
        #[trigger] nodes.drop_first()[a]).path != n.path by {
            assert(nodes[a + 1].path != n.path);
        }
        lemma_find_node_push(nodes.drop_first(), n, q);
        assert(nodes[0].path != n.path);
    }
}

/// Removing the node at `i` hides only its path.
pub proof fn lemma_find_node_remove(nodes: Seq<NodeView>, i: int, q: PathView)
    requires
        0 <= i < nodes.len(),
        forall|a: int, b: int|
            0 <= a < b < nodes.len() ==> (#[trigger] nodes[a]).path != (#[trigger] nodes[b]).path,
    ensures
        find_node(nodes.remove(i), q) == (if q == nodes[i].path {
            None::<NodeView>
        } else {
            find_node(nodes, q)
        }),
    decreases nodes.len(),
{
    if i == 0 {
        assert(nodes.remove(0) =~= nodes.drop_first());
        if q == nodes[0].path {
            lemma_find_node_present(nodes.drop_first(), q);
            if find_node(nodes.drop_first(), q) is Some {
                let j = choose|j: int|
                    0 <= j < nodes.drop_first().len() && (#[trigger] nodes.drop_first()[j]).path
                        == q;
                assert(nodes[j + 1].path == q);
                assert(false);
            }
        }
    } else {
        assert(nodes.remove(i)[0] == nodes[0]);
        assert(nodes.remove(i).drop_first() =~= nodes.drop_first().remove(i - 1));
        assert forall|a: int, b: int| 0 <= a < b < nodes.drop_first().len() implies (
        #[trigger] nodes.drop_first()[a]).path != (#[trigger] nodes.drop_first()[b]).path by {
            assert(nodes[a + 1].path != nodes[b + 1].path);
        }
        lemma_find_node_remove(nodes.drop_first(), i - 1, q);
        if nodes[0].path == q {
            assert(nodes[0].path != nodes[i].path);
        }
    }
}

/// A found change is in the list, keyed by the sought path.
pub proof fn lemma_find_change_present(changes: Seq<ChangeView>, p: PathView)
    ensures
        find_change(changes, p) is Some <==> exists|i: int|
            0 <= i < changes.len() && change_path(#[trigger] changes[i]) == p,
        find_change(changes, p) matches Some(c) ==> change_path(c) == p && exists|i: int|
            0 <= i < changes.len() && #[trigger] changes[i] == c,
    decreases changes.len(),
{
    if changes.len() > 0 {
        if change_path(changes[0]) == p {
        } else {
            lemma_find_change_present(changes.drop_first(), p);
            if find_change(changes.drop_first(), p) is Some {
                let i = choose|i: int|
                    0 <= i < changes.drop_first().len() && change_path(
                        #[trigger] changes.drop_first()[i],
                    ) == p;
                assert(change_path(changes[i + 1]) == p);
                let c = find_change(changes.drop_first(), p)->Some_0;
                let j = choose|j: int|
                    0 <= j < changes.drop_first().len() && #[trigger] changes.drop_first()[j] == c;
                assert(changes[j + 1] == c);
            }
            if exists|i: int| 0 <= i < changes.len() && change_path(#[trigger] changes[i]) == p {
                let i = choose|i: int|
                    0 <= i < changes.len() && change_path(#[trigger] changes[i]) == p;
                assert(change_path(changes.drop_first()[i - 1]) == p);
            }
        }
    }
}

/// Replacing the change keyed by `change_path(c)` changes only it.
pub proof fn lemma_find_change_update(changes: Seq<ChangeView>, i: int, c: ChangeView, q: PathView)
    requires
        0 <= i < changes.len(),
        change_path(changes[i]) == change_path(c),
        forall|a: int, b: int|
            0 <= a < b < changes.len() ==> change_path(#[trigger] changes[a]) != change_path(
                #[trigger] changes[b],
            ),
    ensures
        find_change(changes.update(i, c), q) == (if q == change_path(c) {
            Some(c)
        } else {
            find_change(changes, q)
        }),
    decreases changes.len(),
{
    if i == 0 {
        assert(changes.update(0, c)[0] == c);
        assert(changes.update(0, c).drop_first() =~= changes.drop_first());
        if q == change_path(c) && change_path(changes[0]) != q {
            assert(false);
        }
        if q != change_path(c) && change_path(changes[0]) == q {
            assert(false);
        }
        if q == change_path(c) {
        } else {
            lemma_find_change_present(changes.drop_first(), q);
        }
    } else {
        assert(changes.update(i, c)[0] == changes[0]);
        assert(changes.update(i, c).drop_first() =~= changes.drop_first().update(i - 1, c));
        assert forall|a: int, b: int| 0 <= a < b < changes.drop_first().len() implies change_path(
            #[trigger] changes.drop_first()[a],
        ) != change_path(#[trigger] changes.drop_first()[b]) by {
            assert(change_path(changes[a + 1]) != change_path(changes[b + 1]));
        }
        lemma_find_change_update(changes.drop_first(), i - 1, c, q);
        if change_path(changes[0]) == q {
            assert(change_path(changes[0]) != change_path(changes[i]));
        }
    }
}

/// The store: the node tree and the generation counter, bumped once
/// by every successfully applied change set.
pub struct Store {
    generation: u64,
    store: Vec<Node>,
}

/// An overlay of recorded mutations over the store generation it was
/// taken from. Reads go through the overlay first; the only way to
/// mutate the store is to apply one of these.
#[derive(Clone)]
pub struct ChangeSet {
    parent: u64,
    changes: Vec<Change>,
}

impl ChangeSet {
    /// The store generation this change set was taken from.
    pub closed spec fn parent_gen(&self) -> u64 {
        self.parent
    }

    /// The recorded mutations, in insertion order.
    pub closed spec fn changes(&self) -> Seq<ChangeView> {
        self.changes.deep_view()
    }

    /// Structural well-formedness of the recorded mutations.
    pub open spec fn inv(&self) -> bool {
        changes_wf(self.changes())
    }

    /// An empty overlay over the store's current generation.
    pub fn new(from: &Store) -> (r: ChangeSet)
        ensures
            r.parent_gen() == from.gen(),
            r.changes() == Seq::<ChangeView>::empty(),
            r.inv(),
    {
        let r = ChangeSet { parent: from.generation, changes: Vec::new() };
        proof {
            assert(r.changes() =~= Seq::<ChangeView>::empty());
        }
        r
    }

    /// An owned copy of this overlay.
    pub fn duplicate(&self) -> (r: ChangeSet)
        ensures
            r.parent_gen() == self.parent_gen(),
            r.changes() == self.changes(),
    {
        let mut changes: Vec<Change> = Vec::new();
        let mut i: usize = 0;
        proof {
            assert(changes.deep_view() =~= self.changes().take(0));
        }
        while i < self.changes.len()
            invariant
                i <= self.changes@.len(),
                changes.deep_view() == self.changes().take(i as int),
                self.changes().len() == self.changes@.len(),
            decreases self.changes@.len() - i,
        {
            let ghost before = changes.deep_view();
            let c = self.changes[i].duplicate();
            proof {
                assert(self.changes@[i as int].deep_view() == self.changes()[i as int]);
            }
            changes.push(c);
            proof {
                assert(changes.deep_view() =~~= before.push(self.changes()[i as int]));
                assert(before.push(self.changes()[i as int]) =~= self.changes().take(i + 1));
            }
            i = i + 1;
        }
        proof {
            assert(self.changes().take(i as int) =~= self.changes());
        }
        let r = ChangeSet { parent: self.parent, changes };
        proof {
            assert(r.changes() =~= self.changes());
        }
        r
    }

    /// Records one mutation, replacing any entry under the same path.
    fn insert(&mut self, change: Change)
        requires
            old(self).inv(),
            node_wf(change_node(change@)),
            change@ is Remove ==> change_path(change@).len() > 0,
        ensures
            final(self).inv(),
            final(self).parent_gen() == old(self).parent_gen(),
            forall|q: PathView|
                #![trigger find_change(final(self).changes(), q)]
                find_change(final(self).changes(), q) == (if q == change_path(change@) {
                    Some(change@)
                } else {
                    find_change(old(self).changes(), q)
                }),
    {
        let ghost cv = change@;
        let ghost old_changes = self.changes();
        let ghost parent0 = self.parent;
        let p = change.path().duplicate();
        let mut i: usize = 0;
        let n = self.changes.len();
        while i < n
            invariant
                i <= n,
                n == self.changes@.len(),
                self.changes() == old_changes,
                old_changes == old(self).changes(),
                self.parent == parent0,
                parent0 == old(self).parent,
                cv == change@,
                changes_wf(old_changes),
                node_wf(change_node(cv)),
                cv is Remove ==> change_path(cv).len() > 0,
                p@ == change_path(cv),
                forall|j: int| 0 <= j < i ==> change_path(#[trigger] old_changes[j]) != p@,
            decreases n - i,
        {
            let same = self.changes[i].path().same_as(&p);
            proof {
                assert(self.changes@[i as int].deep_view() == old_changes[i as int]);
            }
            if same {
                proof {
                    lemma_find_change_update(old_changes, i as int, cv, change_path(cv));
                }
                self.changes.set(i, change);
                proof {
                    assert(self.changes() =~~= old_changes.update(i as int, cv));
                    assert forall|q: PathView| #![trigger find_change(self.changes(), q)] true implies
                        find_change(self.changes(), q) == (if q == change_path(cv) {
                        Some(cv)
                    } else {
                        find_change(old_changes, q)
                    }) by {
                        lemma_find_change_update(old_changes, i as int, cv, q);
                    }
                    assert forall|a: int, b: int| 0 <= a < b < self.changes().len() implies
                        change_path(#[trigger] self.changes()[a]) != change_path(
                        #[trigger] self.changes()[b],
                    ) by {
                        if a != i && b != i {
                            assert(change_path(old_changes[a]) != change_path(old_changes[b]));
                        } else if a == i {
                            assert(change_path(old_changes[a]) != change_path(old_changes[b]));
                        } else {
                            assert(change_path(old_changes[a]) != change_path(old_changes[b]));
                        }
                    }
                }
                return ;
            }
            i = i + 1;
        }
        let ghost before = self.changes();
        self.changes.push(change);
        proof {
            assert(self.changes() =~~= before.push(cv));
            assert forall|q: PathView| #![trigger find_change(self.changes(), q)] true implies
                find_change(self.changes(), q) == (if q == change_path(cv) {
                Some(cv)
            } else {
                find_change(before, q)
            }) by {
                lemma_find_change_push(before, cv, q);
            }
            assert forall|a: int, b: int| 0 <= a < b < self.changes().len() implies change_path(
                #[trigger] self.changes()[a],
            ) != change_path(#[trigger] self.changes()[b]) by {
                if b < before.len() {
                    assert(change_path(before[a]) != change_path(before[b]));
                } else {
                    assert(change_path(before[a]) != change_path(cv));
                }
            }
        }
    }
}

/// Appending a change under a fresh path changes only that path.
pub proof fn lemma_find_change_push(changes: Seq<ChangeView>, c: ChangeView, q: PathView)
    requires
        forall|a: int|
            0 <= a < changes.len() ==> change_path(#[trigger] changes[a]) != change_path(c),
    ensures
        find_change(changes.push(c), q) == (if q == change_path(c) {
            Some(c)
        } else {
            find_change(changes, q)
        }),
    decreases changes.len(),
{
    if changes.len() == 0 {
        assert(changes.push(c)[0] == c);
        assert(changes.push(c).drop_first() =~= Seq::<ChangeView>::empty());
    } else {
        assert(changes.push(c)[0] == changes[0]);
        assert(changes.push(c).drop_first() =~= changes.drop_first().push(c));
        assert forall|a: int| 0 <= a < changes.drop_first().len() implies change_path(
            #[trigger] changes.drop_first()[a],
        ) != change_path(c) by {
            assert(change_path(changes[a + 1]) != change_path(c));
        }
        lemma_find_change_push(changes.drop_first(), c, q);
        assert(change_path(changes[0]) != change_path(c));
    }
}

/// The node the store starts with at `q`: the root with child
/// `tool`, `/tool` with child `xenstored`, and `/tool/xenstored`,
/// all owned by the privileged domain with default mode none.
pub open spec fn initial_node(q: PathView) -> Option<NodeView> {
    let perms = seq![Permission { id: DOM0_DOMAIN_ID, perm: PERM_NONE }];
    if q == Seq::<Seq<char>>::empty() {
        Some(
            NodeView {
                path: q,
                value: Seq::empty(),
                children: seq!["tool"@],
                permissions: perms,
            },
        )
    } else if q == seq!["tool"@] {
        Some(
            NodeView {
                path: q,
                value: Seq::empty(),
                children: seq!["xenstored"@],
                permissions: perms,
            },
        )
    } else if q == seq!["tool"@, "xenstored"@] {
        Some(
            NodeView {
                path: q,
                value: Seq::empty(),
                children: Seq::empty(),
                permissions: perms,
            },
        )
    } else {
        None
    }
}

impl Store {
    /// A fresh store at generation zero, holding the initial tree.
    pub fn new() -> (r: Store)
        ensures
            r.inv(),
            r.gen() == 0,
            forall|q: PathView| #[trigger] find_node(r.nodes(), q) == initial_node(q),
            store_tree_wf(r.nodes()),
    {
        let mut perms: Vec<Permission> = Vec::new();
        perms.push(Permission { id: DOM0_DOMAIN_ID, perm: PERM_NONE });
        let root_path = Path::root();
        let tool_path = root_path.push("tool");
        let toolx_path = tool_path.push("xenstored");
        let mut root_children: Vec<Basename> = Vec::new();
        root_children.push("tool".to_owned());
        let mut tool_children: Vec<Basename> = Vec::new();
        tool_children.push("xenstored".to_owned());
        let root = Node {
            path: root_path,
            value: String::new(),
            children: root_children,
            permissions: clone_permissions(&perms),
        };
        let tool = Node {
            path: tool_path,
            value: String::new(),
            children: tool_children,
            permissions: clone_permissions(&perms),
        };
        let toolx = Node {
            path: toolx_path,
            value: String::new(),
            children: Vec::new(),
            permissions: perms,
        };
        let ghost rootv = root@;
        let ghost toolv = tool@;
        let ghost toolxv = toolx@;
        let mut store: Vec<Node> = Vec::new();
        store.push(root);
        store.push(tool);
        store.push(toolx);
        let r = Store { generation: 0, store };
        proof {
            reveal_strlit("tool");
            reveal_strlit("xenstored");
            assert(r.nodes() =~= seq![rootv, toolv, toolxv]);
            assert(rootv.path =~= Seq::<Seq<char>>::empty());
            assert(toolv.path =~= seq!["tool"@]);
            assert(toolxv.path =~= seq!["tool"@, "xenstored"@]);
            assert(rootv.children =~= seq!["tool"@]);
            assert(toolv.children =~= seq!["xenstored"@]);
            assert(toolxv.children =~= Seq::<Seq<char>>::empty());
            assert(rootv.permissions =~= seq![Permission { id: DOM0_DOMAIN_ID, perm: PERM_NONE }]);
            assert(is_component("tool"@));
            assert(is_component("xenstored"@));
            assert forall|q: PathView| #[trigger] find_node(r.nodes(), q) == initial_node(q) by {
                reveal_with_fuel(find_node, 5);
                assert(r.nodes()[0] == rootv);
                assert(r.nodes().drop_first() =~= seq![toolv, toolxv]);
                assert(seq![toolv, toolxv].drop_first() =~= seq![toolxv]);
                assert(seq![toolxv].drop_first() =~= Seq::<NodeView>::empty());
                if q != rootv.path && q != toolv.path && q != toolxv.path {
                    assert(find_node(r.nodes(), q) is None);
                }
                assert(rootv =~= initial_node(rootv.path)->Some_0);
                assert(toolv =~= initial_node(toolv.path)->Some_0);
                assert(toolxv =~= initial_node(toolxv.path)->Some_0);
            }
            assert(node_wf(rootv));
            assert(node_wf(toolv));
            assert(node_wf(toolxv));
            assert(r.inv()) by {
                assert(find_node(r.nodes(), Seq::empty()) == initial_node(Seq::empty()));
            }
            assert(store_tree_wf(r.nodes())) by {
                let nodes = r.nodes();
                let changes = Seq::<ChangeView>::empty();
                assert forall|p: PathView| (#[trigger] eff_lookup(nodes, changes, p))
                    is Some implies (eff_lookup(nodes, changes, p)->Some_0.path == p && node_wf(
                    eff_lookup(nodes, changes, p)->Some_0,
                )) by {
                    assert(eff_lookup(nodes, changes, p) == find_node(nodes, p));
                }
                assert forall|p: PathView| ((#[trigger] eff_lookup(nodes, changes, p)) is Some
                    && p.len() > 0) implies (eff_lookup(nodes, changes, p.drop_last()) matches Some(
                    par,
                ) && par.children.contains(p.last())) by {
                    assert(eff_lookup(nodes, changes, p) == find_node(nodes, p));
                    if p == toolv.path {
                        assert(p.drop_last() =~= rootv.path);
                        assert(p.last() == "tool"@);
                        assert(rootv.children[0] == "tool"@);
                    } else {
                        assert(p == toolxv.path);
                        assert(p.drop_last() =~= toolv.path);
                        assert(p.last() == "xenstored"@);
                        assert(toolv.children[0] == "xenstored"@);
                    }
                }
                assert forall|p: PathView, c: Seq<char>|
                    #![trigger eff_lookup(nodes, changes, p.push(c))]
                    (eff_lookup(nodes, changes, p) matches Some(n) && n.children.contains(
                        c,
                    )) implies eff_lookup(nodes, changes, p.push(c)) is Some by {
                    if p == rootv.path {
                        assert(c == "tool"@);
                        assert(p.push(c) =~= toolv.path);
                    } else if p == toolv.path {
                        assert(c == "xenstored"@);
                        assert(p.push(c) =~= toolxv.path);
                    } else {
                        assert(p == toolxv.path);
                        assert(false);
                    }
                }
            }
        }
        r
    }

    /// Puts `node` into the store, replacing any node at its path.
    fn store_insert(&mut self, node: Node)
        requires
            forall|a: int, b: int|
                0 <= a < b < old(self).nodes().len() ==> (#[trigger] old(self).nodes()[a]).path != (
                #[trigger] old(self).nodes()[b]).path,
            forall|a: int| 0 <= a < old(self).nodes().len() ==> node_wf(#[trigger] old(self).nodes()[a]),
            node_wf(node@),
        ensures
            final(self).gen() == old(self).gen(),
            forall|a: int, b: int|
                0 <= a < b < final(self).nodes().len() ==> (#[trigger] final(self).nodes()[a]).path
                    != (#[trigger] final(self).nodes()[b]).path,
            forall|a: int| 0 <= a < final(self).nodes().len() ==> node_wf(#[trigger] final(self).nodes()[a]),
            forall|q: PathView|
                #![trigger find_node(final(self).nodes(), q)]
                find_node(final(self).nodes(), q) == (if q == node@.path {
                    Some(node@)
                } else {
                    find_node(old(self).nodes(), q)
                }),
    {
        let ghost nv = node@;
        let ghost old_nodes = self.nodes();
        let ghost gen0 = self.generation;
        let mut i: usize = 0;
        let n = self.store.len();
        while i < n
            invariant
                i <= n,
                n == self.store@.len(),
                self.nodes() == old_nodes,
                old_nodes == old(self).nodes(),
                self.generation == gen0,
                gen0 == old(self).generation,
                nv == node@,
                node_wf(nv),
                forall|a: int, b: int|
                    0 <= a < b < old_nodes.len() ==> (#[trigger] old_nodes[a]).path != (
                    #[trigger] old_nodes[b]).path,
                forall|a: int| 0 <= a < old_nodes.len() ==> node_wf(#[trigger] old_nodes[a]),
                forall|j: int| 0 <= j < i ==> (#[trigger] old_nodes[j]).path != nv.path,
            decreases n - i,
        {
            proof {
                assert(self.store@[i as int].deep_view() == old_nodes[i as int]);
            }
            let same = self.store[i].path.same_as(&node.path);
            if same {
                self.store.set(i, node);
                proof {
                    assert(self.nodes() =~~= old_nodes.update(i as int, nv));
                    assert forall|q: PathView|
                        #![trigger find_node(self.nodes(), q)]
                        true implies find_node(self.nodes(), q) == (if q == nv.path {
                        Some(nv)
                    } else {
                        find_node(old_nodes, q)
                    }) by {
                        lemma_find_node_update(old_nodes, i as int, nv, q);
                    }
                    assert forall|a: int, b: int| 0 <= a < b < self.nodes().len() implies (
                    #[trigger] self.nodes()[a]).path != (#[trigger] self.nodes()[b]).path by {
                        assert(old_nodes[a].path != old_nodes[b].path);
                    }
                }
                return ;
            }
            i = i + 1;
        }
        let ghost before = self.nodes();
        self.store.push(node);
        proof {
            assert(self.nodes() =~~= before.push(nv));
            assert forall|q: PathView|
                #![trigger find_node(self.nodes(), q)]
                true implies find_node(self.nodes(), q) == (if q == nv.path {
                Some(nv)
            } else {
                find_node(before, q)
            }) by {
                lemma_find_node_push(before, nv, q);
            }
            assert forall|a: int, b: int| 0 <= a < b < self.nodes().len() implies (
            #[trigger] self.nodes()[a]).path != (#[trigger] self.nodes()[b]).path by {
                if b < before.len() {
                    assert(before[a].path != before[b].path);
                } else {
                    assert(before[a].path != nv.path);
                }
            }
        }
    }

    /// Takes the node at `path` out of the store, if present.
    fn store_remove(&mut self, path: &Path)
        requires
            forall|a: int, b: int|
                0 <= a < b < old(self).nodes().len() ==> (#[trigger] old(self).nodes()[a]).path != (
                #[trigger] old(self).nodes()[b]).path,
            forall|a: int| 0 <= a < old(self).nodes().len() ==> node_wf(#[trigger] old(self).nodes()[a]),
        ensures
            final(self).gen() == old(self).gen(),
            forall|a: int, b: int|
                0 <= a < b < final(self).nodes().len() ==> (#[trigger] final(self).nodes()[a]).path
                    != (#[trigger] final(self).nodes()[b]).path,
            forall|a: int| 0 <= a < final(self).nodes().len() ==> node_wf(#[trigger] final(self).nodes()[a]),
            forall|q: PathView|
                #![trigger find_node(final(self).nodes(), q)]
                find_node(final(self).nodes(), q) == (if q == path@ {
                    None::<NodeView>
                } else {
                    find_node(old(self).nodes(), q)
                }),
    {
        let ghost old_nodes = self.nodes();
        let ghost gen0 = self.generation;
        let mut i: usize = 0;
        let n = self.store.len();
        while i < n
            invariant
                i <= n,
                n == self.store@.len(),
                self.nodes() == old_nodes,
                old_nodes == old(self).nodes(),
                self.generation == gen0,
                gen0 == old(self).generation,
                forall|a: int, b: int|
                    0 <= a < b < old_nodes.len() ==> (#[trigger] old_nodes[a]).path != (
                    #[trigger] old_nodes[b]).path,
                forall|a: int| 0 <= a < old_nodes.len() ==> node_wf(#[trigger] old_nodes[a]),
                forall|j: int| 0 <= j < i ==> (#[trigger] old_nodes[j]).path != path@,
            decreases n - i,
        {
            proof {
                assert(self.store@[i as int].deep_view() == old_nodes[i as int]);
            }
            let same = self.store[i].path.same_as(path);
            if same {
                self.store.remove(i);
                proof {
                    assert(self.nodes() =~~= old_nodes.remove(i as int));
                    assert forall|q: PathView|
                        #![trigger find_node(self.nodes(), q)]
                        true implies find_node(self.nodes(), q) == (if q == path@ {
                        None::<NodeView>
                    } else {
                        find_node(old_nodes, q)
                    }) by {
                        lemma_find_node_remove(old_nodes, i as int, q);
                    }
                    assert forall|a: int, b: int| 0 <= a < b < self.nodes().len() implies (
                    #[trigger] self.nodes()[a]).path != (#[trigger] self.nodes()[b]).path by {
                        let ra = if a < i {
                            a
                        } else {
                            a + 1
                        };
                        let rb = if b < i {
                            b
                        } else {
                            b + 1
                        };
                        assert(self.nodes()[a] == old_nodes[ra] && self.nodes()[b]
                            == old_nodes[rb]);
                    }
                    assert forall|a: int| 0 <= a < self.nodes().len() implies node_wf(
                        #[trigger] self.nodes()[a],
                    ) by {
                        let ra = if a < i {
                            a
                        } else {
                            a + 1
                        };
                        assert(self.nodes()[a] == old_nodes[ra]);
                    }
                }
                return ;
            }
            i = i + 1;
        }
        proof {
            lemma_find_node_present(old_nodes, path@);
            if find_node(old_nodes, path@) is Some {
                let j = choose|j: int|
                    0 <= j < old_nodes.len() && (#[trigger] old_nodes[j]).path == path@;
                assert(false);
            }
        }
    }

    /// Applies a whole change set to the store: every recorded write
    /// is installed and every recorded removal taken out, in the
    /// overlay's insertion order, and the generation moves up by one.
    /// Nothing happens — and nothing is returned — when the overlay
    /// was taken from a different generation.
    pub fn apply(&mut self, change_set: ChangeSet) -> (r: Option<Vec<AppliedChange>>)
        requires
            old(self).inv(),
            change_set.inv(),
        ensures
            r is Some <==> (change_set.parent_gen() == old(self).gen() && old(self).gen()
                < u64::MAX),
            r is None ==> (final(self).gen() == old(self).gen() && final(self).nodes() == old(
                self).nodes()),
            r matches Some(applied) ==> (final(self).gen() == old(self).gen() + 1 && final(
                self).inv() && (forall|q: PathView|
                #![trigger find_node(final(self).nodes(), q)]
                find_node(final(self).nodes(), q) == eff_lookup(
                    old(self).nodes(),
                    change_set.changes(),
                    q,
                )) && applied.deep_view().len() == change_set.changes().len() && (forall|i: int|
                0 <= i < change_set.changes().len() ==> applied.deep_view()[i] == applied_of(
                    #[trigger] change_set.changes()[i],
                ))),
    {
        if self.generation != change_set.parent {
            return None;
        }
        if self.generation == u64::MAX {
            return None;
        }
        let ghost nodes0 = self.nodes();
        let ghost csv = change_set.changes();
        let mut applied: Vec<AppliedChange> = Vec::new();
        let mut i: usize = 0;
        let n = change_set.changes.len();
        proof {
            assert(csv.take(0) =~= Seq::<ChangeView>::empty());
            assert(applied.deep_view() =~= Seq::<AppliedChangeView>::empty());
        }
        while i < n
            invariant
                i <= n,
                n == change_set.changes@.len(),
                csv == change_set.changes(),
                changes_wf(csv),
                self.generation == old(self).generation,
                nodes0 == old(self).nodes(),
                forall|a: int, b: int|
                    0 <= a < b < self.nodes().len() ==> (#[trigger] self.nodes()[a]).path != (
                    #[trigger] self.nodes()[b]).path,
                forall|a: int| 0 <= a < self.nodes().len() ==> node_wf(#[trigger] self.nodes()[a]),
                forall|q: PathView|
                    #![trigger find_node(self.nodes(), q)]
                    find_node(self.nodes(), q) == eff_lookup(nodes0, csv.take(i as int), q),
                applied.deep_view().len() == i,
                forall|j: int|
                    0 <= j < i ==> applied.deep_view()[j] == applied_of(#[trigger] csv[j]),
            decreases n - i,
        {
            proof {
                assert(change_set.changes@[i as int].deep_view() == csv[i as int]);
                assert(csv.take(i + 1) =~= csv.take(i as int).push(csv[i as int]));
                assert forall|a: int| 0 <= a < csv.take(i as int).len() implies change_path(
                    #[trigger] csv.take(i as int)[a],
                ) != change_path(csv[i as int]) by {
                    assert(csv.take(i as int)[a] == csv[a]);
                }
            }
            let ghost applied_before = applied.deep_view();
            match &change_set.changes[i] {
                Change::Write(node) => {
                    let dup = node.duplicate();
                    self.store_insert(dup);
                    applied.push(
                        AppliedChange::Write(
                            node.path.duplicate(),
                            clone_permissions(&node.permissions),
                        ),
                    );
                }
                Change::Remove(node) => {
                    self.store_remove(&node.path);
                    applied.push(AppliedChange::Remove(node.path.duplicate()));
                }
            }
            proof {
                assert(applied.deep_view() =~~= applied_before.push(applied_of(csv[i as int])));
                assert forall|q: PathView|
                    #![trigger find_node(self.nodes(), q)]
                    true implies find_node(self.nodes(), q) == eff_lookup(
                    nodes0,
                    csv.take(i + 1),
                    q,
                ) by {
                    lemma_find_change_push(csv.take(i as int), csv[i as int], q);
                }
            }
            i = i + 1;
        }
        let ghost nodes_after = self.nodes();
        self.generation = self.generation + 1;
        proof {
            assert(self.nodes() == nodes_after);
            assert(csv.take(i as int) =~= csv);
            assert forall|q: PathView|
                #![trigger find_node(self.nodes(), q)]
                find_node(self.nodes(), q) == eff_lookup(nodes0, csv, q) by {
                assert(find_node(nodes_after, q) == eff_lookup(nodes0, csv.take(i as int), q));
            }
            assert(find_node(self.nodes(), Seq::empty()) is Some) by {
                assert(find_node(self.nodes(), Seq::empty()) == eff_lookup(
                    nodes0,
                    csv,
                    Seq::empty(),
                ));
                match find_change(csv, Seq::empty()) {
                    Some(c) => {
                        lemma_find_change_present(csv, Seq::empty());
                        let j = choose|j: int| 0 <= j < csv.len() && #[trigger] csv[j] == c;
                        assert(!(csv[j] is Remove));
                    }
                    None => {}
                }
            }
        }
        Some(applied)
    }
}

impl Store {
    /// The current generation.
    pub closed spec fn gen(&self) -> u64 {
        self.generation
    }

    /// The stored nodes.
    pub closed spec fn nodes(&self) -> Seq<NodeView> {
        self.store.deep_view()
    }

    /// Structural well-formedness of the stored nodes.
    pub open spec fn inv(&self) -> bool {
        nodes_wf(self.nodes())
    }

    /// The current generation, for conflict detection.
    pub fn generation(&self) -> (r: u64)
        ensures
            r == self.gen(),
    {
        self.generation
    }

    /// Resolves `path` through the overlay, with no permission check.
    fn lookup(&self, change_set: &ChangeSet, path: &Path) -> (r: Option<Node>)
        ensures
            r matches Some(n) ==> eff_lookup(self.nodes(), change_set.changes(), path@) == Some(
                n@,
            ),
            r is Some <==> eff_lookup(self.nodes(), change_set.changes(), path@) is Some,
    {
        let ghost changes = change_set.changes();
        let ghost nodes = self.nodes();
        let mut i: usize = 0;
        let n = change_set.changes.len();
        proof {
            assert(changes.skip(0) =~= changes);
        }
        while i < n
            invariant
                i <= n,
                n == change_set.changes@.len(),
                changes == change_set.changes(),
                find_change(changes, path@) == find_change(changes.skip(i as int), path@),
            decreases n - i,
        {
            proof {
                assert(changes.skip(i as int).drop_first() =~= changes.skip(i + 1));
                assert(changes.skip(i as int)[0] == changes[i as int]);
                assert(change_set.changes@[i as int].deep_view() == changes[i as int]);
            }
            let same = change_set.changes[i].path().same_as(path);
            if same {
                match &change_set.changes[i] {
                    Change::Write(node) => {
                        return Some(node.duplicate());
                    }
                    Change::Remove(_) => {
                        return None;
                    }
                }
            }
            i = i + 1;
        }
        proof {
            assert(find_change(changes.skip(i as int), path@) is None);
        }
        let mut j: usize = 0;
        let m = self.store.len();
        proof {
            assert(nodes.skip(0) =~= nodes);
        }
        while j < m
            invariant
                j <= m,
                m == self.store@.len(),
                nodes == self.nodes(),
                find_change(changes, path@) is None,
                changes == change_set.changes(),
                find_node(nodes, path@) == find_node(nodes.skip(j as int), path@),
            decreases m - j,
        {
            proof {
                assert(nodes.skip(j as int).drop_first() =~= nodes.skip(j + 1));
                assert(nodes.skip(j as int)[0] == nodes[j as int]);
                assert(self.store@[j as int].deep_view() == nodes[j as int]);
            }
            let same = self.store[j].path.same_as(path);
            if same {
                return Some(self.store[j].duplicate());
            }
            j = j + 1;
        }
        proof {
            assert(find_node(nodes.skip(j as int), path@) is None);
        }
        None
    }

    /// Looks a node up through the overlay and checks the requested
    /// mode. `ENOENT` when the path resolves to nothing, `EACCES`
    /// when it resolves to a node the domain may not use this way.
    fn get_node(&self, change_set: &ChangeSet, dom_id: DomainId, path: &Path, perm: Perm) -> (r:
        Result<Node, Error>)
        ensures
            r is Ok <==> (eff_lookup(self.nodes(), change_set.changes(), path@) matches Some(n)
                && spec_perms_ok(dom_id, n.permissions, perm)),
            r matches Ok(n) ==> eff_lookup(self.nodes(), change_set.changes(), path@) == Some(n@),
            r matches Err(e) ==> (match eff_lookup(self.nodes(), change_set.changes(), path@) {
                Some(n) => e is EACCES && !spec_perms_ok(dom_id, n.permissions, perm),
                None => e is ENOENT,
            }),
    {
        match self.lookup(change_set, path) {
            Some(node) => {
                if node.perms_ok(dom_id, perm) {
                    Ok(node)
                } else {
                    Err(Error::EACCES(String::from_str("node is not usable this way")))
                }
            }
            None => Err(Error::ENOENT(String::from_str("no node at this path"))),
        }
    }

    /// Reads the value at `path` through the overlay. Succeeds
    /// exactly when the node exists there and the domain may read it.
    pub fn read(&self, change_set: &ChangeSet, dom_id: DomainId, path: &Path) -> (r: Result<
        Value,
        Error,
    >)
        ensures
            r is Ok <==> (eff_lookup(self.nodes(), change_set.changes(), path@) matches Some(n)
                && spec_perms_ok(dom_id, n.permissions, PERM_READ)),
            r matches Ok(v) ==> v@ == eff_lookup(
                self.nodes(),
                change_set.changes(),
                path@,
            )->Some_0.value,
            r matches Err(e) ==> (match eff_lookup(self.nodes(), change_set.changes(), path@) {
                Some(n) => e is EACCES && !spec_perms_ok(dom_id, n.permissions, PERM_READ),
                None => e is ENOENT,
            }),
    {
        match self.get_node(change_set, dom_id, path, PERM_READ) {
            Ok(node) => Ok(node.value),
            Err(e) => Err(e),
        }
    }

    /// The permission list of the node at `path`. Succeeds exactly
    /// when the node exists there and the domain may read it.
    pub fn get_perms(&self, change_set: &ChangeSet, dom_id: DomainId, path: &Path) -> (r: Result<
        Vec<Permission>,
        Error,
    >)
        ensures
            r is Ok <==> (eff_lookup(self.nodes(), change_set.changes(), path@) matches Some(n)
                && spec_perms_ok(dom_id, n.permissions, PERM_READ)),
            r matches Ok(v) ==> v@ == eff_lookup(
                self.nodes(),
                change_set.changes(),
                path@,
            )->Some_0.permissions,
            r matches Err(e) ==> (match eff_lookup(self.nodes(), change_set.changes(), path@) {
                Some(n) => e is EACCES && !spec_perms_ok(dom_id, n.permissions, PERM_READ),
                None => e is ENOENT,
            }),
    {
        match self.get_node(change_set, dom_id, path, PERM_READ) {
            Ok(node) => Ok(node.permissions),
            Err(e) => Err(e),
        }
    }

    /// The child basenames of the node at `path`, in their stored
    /// lexicographic order. Succeeds exactly when the node exists
    /// there and the domain may read it.
    pub fn directory(&self, change_set: &ChangeSet, dom_id: DomainId, path: &Path) -> (r: Result<
        Vec<Basename>,
        Error,
    >)
        ensures
            r is Ok <==> (eff_lookup(self.nodes(), change_set.changes(), path@) matches Some(n)
                && spec_perms_ok(dom_id, n.permissions, PERM_READ)),
            r matches Ok(v) ==> v.deep_view() == eff_lookup(
                self.nodes(),
                change_set.changes(),
                path@,
            )->Some_0.children,
            r matches Err(e) ==> (match eff_lookup(self.nodes(), change_set.changes(), path@) {
                Some(n) => e is EACCES && !spec_perms_ok(dom_id, n.permissions, PERM_READ),
                None => e is ENOENT,
            }),
    {
        match self.get_node(change_set, dom_id, path, PERM_READ) {
            Ok(node) => Ok(node.children),
            Err(e) => Err(e),
        }
    }

    /// Writes `value` at `path` into the overlay, creating missing
    /// ancestors under the nearest existing writable one. `EACCES`
    /// when the node (or that ancestor) refuses writes from `dom_id`.
    pub fn write(&self, change_set: &ChangeSet, dom_id: DomainId, path: Path, value: Value) -> (r:
        Result<ChangeSet, Error>)
        requires
            self.inv(),
            change_set.inv(),
            path_wf(path@),
        ensures
            r is Ok <==> write_ok(self.nodes(), change_set.changes(), dom_id, path@),
            r matches Ok(cs2) ==> (cs2.inv() && cs2.parent_gen() == change_set.parent_gen()
                && write_updated(
                self.nodes(),
                change_set.changes(),
                cs2.changes(),
                dom_id,
                path@,
                value@,
            )),
            r matches Err(e) ==> e is EACCES,
    {
        let ghost nodes = self.nodes();
        let ghost changes = change_set.changes();
        match self.get_node(change_set, dom_id, &path, PERM_WRITE) {
            Ok(node) => {
                proof {
                    lemma_eff_node_wf(nodes, changes, path@);
                }
                let ghost old_node = node@;
                let mut node2 = node;
                node2.value = value;
                let mut cs2 = change_set.duplicate();
                cs2.insert(Change::Write(node2));
                proof {
                    assert(node2@ =~= NodeView { value: value@, ..old_node });
                    assert forall|q: PathView| q != path@ implies #[trigger] eff_lookup(
                        nodes,
                        cs2.changes(),
                        q,
                    ) == eff_lookup(nodes, changes, q) by {
                        assert(find_change(cs2.changes(), q) == find_change(changes, q));
                    }
                }
                Ok(cs2)
            }
            Err(e) => {
                if matches!(e, Error::ENOENT(_)) {
                    self.construct(change_set, dom_id, path, value)
                } else {
                    Err(e)
                }
            }
        }
    }

    /// Creates the node at `path` (known absent) and its missing
    /// ancestors, hooking the chain into the nearest existing
    /// ancestor, which must be writable by `dom_id`.
    fn construct(&self, change_set: &ChangeSet, dom_id: DomainId, path: Path, value: Value) -> (r:
        Result<ChangeSet, Error>)
        requires
            self.inv(),
            change_set.inv(),
            path_wf(path@),
            eff_lookup(self.nodes(), change_set.changes(), path@) is None,
        ensures
            r is Ok <==> write_ok(self.nodes(), change_set.changes(), dom_id, path@),
            r matches Ok(cs2) ==> (cs2.inv() && cs2.parent_gen() == change_set.parent_gen()
                && write_updated(
                self.nodes(),
                change_set.changes(),
                cs2.changes(),
                dom_id,
                path@,
                value@,
            )),
            r matches Err(e) ==> e is EACCES,
    {
        let ghost nodes = self.nodes();
        let ghost changes = change_set.changes();
        let ghost pv = path@;
        let n = path.depth();
        proof {
            assert(pv.take(n as int) =~= pv);
        }
        let mut m: usize = n;
        let mut anchor_opt: Option<Node> = None;
        while m > 0 && anchor_opt.is_none()
            invariant
                m <= n,
                n == pv.len(),
                pv == path@,
                nodes == self.nodes(),
                changes == change_set.changes(),
                anchor_opt is None ==> anc_len(nodes, changes, pv, n as int - 1) == anc_len(
                    nodes,
                    changes,
                    pv,
                    m as int - 1,
                ),
                anchor_opt is None ==> eff_lookup(nodes, changes, pv.take(m as int)) is None,
                anchor_opt matches Some(a) ==> (m >= 1 && eff_lookup(
                    nodes,
                    changes,
                    pv.take(m as int - 1),
                ) == Some(a@) && anc_len(nodes, changes, pv, n as int - 1) == m as int - 1),
            decreases m as int + (if anchor_opt is None {
                1int
            } else {
                0int
            }),
        {
            let prefix = path.prefix(m - 1);
            match self.lookup(change_set, &prefix) {
                Some(a) => {
                    anchor_opt = Some(a);
                }
                None => {
                    m = m - 1;
                }
            }
        }
        let ghost k = anc_len(nodes, changes, pv, n as int - 1);
        let anchor = match anchor_opt {
            Some(a) => a,
            None => {
                // even the root is missing: nothing can anchor the chain
                proof {
                    assert(anc_len(nodes, changes, pv, -1) == 0);
                    assert(pv.take(0) =~= pv.take(k));
                }
                return Err(Error::EACCES(String::from_str("no existing ancestor")));
            }
        };
        let anchor_depth = m - 1;
        proof {
            assert(k == anchor_depth as int);
        }
        if !anchor.perms_ok(dom_id, PERM_WRITE) {
            return Err(Error::EACCES(String::from_str("nearest ancestor refuses writes")));
        }
        proof {
            lemma_eff_node_wf(nodes, changes, pv.take(k));
        }
        let ghost anchorv = anchor@;
        let inherited = inherit_perms(&anchor.permissions, dom_id);
        let mut anchor2 = anchor;
        let link = path.component(anchor_depth);
        let ghost linkv = link@;
        proof {
            assert(linkv == pv[k]);
            assert(is_component(linkv));
        }
        children_insert(&mut anchor2.children, &link);
        let ghost anchor2v = anchor2@;
        let mut cs2 = change_set.duplicate();
        cs2.insert(Change::Write(anchor2));
        let mut d: usize = anchor_depth;
        while d < n
            invariant
                anchor_depth as int == k,
                0 <= k < n,
                anchor_depth <= d <= n,
                n == pv.len(),
                pv == path@,
                path_wf(pv),
                nodes == self.nodes(),
                changes == change_set.changes(),
                changes_wf(changes),
                eff_lookup(nodes, changes, pv.take(k)) == Some(anchorv),
                anchorv.permissions.len() > 0,
                inherited@ == spec_inherit(anchorv.permissions, dom_id),
                anchor2v.path == anchorv.path,
                anchor2v.value == anchorv.value,
                anchor2v.permissions == anchorv.permissions,
                children_wf(anchor2v.children),
                node_wf(anchor2v),
                anchorv.path == pv.take(k),
                forall|c: Seq<char>|
                    anchor2v.children.contains(c) <==> (anchorv.children.contains(c) || c == pv[k]),
                cs2.inv(),
                cs2.parent_gen() == change_set.parent_gen(),
                forall|q: PathView|
                    #![trigger find_change(cs2.changes(), q)]
                    find_change(cs2.changes(), q) == (if q == pv.take(k) {
                        Some(ChangeView::Write(anchor2v))
                    } else if k < q.len() <= d && q == pv.take(q.len() as int) {
                        Some(ChangeView::Write(chain_node(anchorv, dom_id, pv, value@, q.len() as int)))
                    } else {
                        find_change(changes, q)
                    }),
            decreases n - d,
        {
            d = d + 1;
            let node_path = path.prefix(d);
            let node_value = if d == n {
                value.clone()
            } else {
                String::new()
            };
            let mut node_children: Vec<Basename> = Vec::new();
            if d < n {
                node_children.push(path.component(d));
            }
            let node_perms = clone_permissions(&inherited);
            let node = Node {
                path: node_path,
                value: node_value,
                children: node_children,
                permissions: node_perms,
            };
            proof {
                assert(node@.children =~= chain_node(anchorv, dom_id, pv, value@, d as int).children);
                assert(node@ =~= chain_node(anchorv, dom_id, pv, value@, d as int));
                assert forall|i: int| 0 <= i < pv.take(d as int).len() implies is_component(
                    #[trigger] pv.take(d as int)[i],
                ) by {
                    assert(pv.take(d as int)[i] == pv[i]);
                }
                if d < n {
                    assert(children_wf(node@.children)) by {
                        assert(node@.children.len() == 1);
                        assert(node@.children[0] == pv[d as int]);
                    }
                } else {
                    assert(children_wf(node@.children));
                }
                assert(node_wf(node@));
            }
            cs2.insert(Change::Write(node));
            proof {
                assert(pv.take(d as int).len() == d as int);
                assert forall|q: PathView|
                    #![trigger find_change(cs2.changes(), q)]
                    true implies find_change(cs2.changes(), q) == (if q == pv.take(k) {
                    Some(ChangeView::Write(anchor2v))
                } else if k < q.len() <= d && q == pv.take(q.len() as int) {
                    Some(ChangeView::Write(chain_node(anchorv, dom_id, pv, value@, q.len() as int)))
                } else {
                    find_change(changes, q)
                }) by {
                    if q == pv.take(d as int) {
                        assert(q.len() == d as int);
                    } else {
                        if q == pv.take(k) {
                            assert(q.len() == k);
                        }
                    }
                }
            }
        }
        proof {
            // translate the recorded changes into what a reader sees
            assert forall|q: PathView| !(k <= q.len() <= pv.len() && q == pv.take(
                q.len() as int,
            )) implies #[trigger] eff_lookup(nodes, cs2.changes(), q) == eff_lookup(
                nodes,
                changes,
                q,
            ) by {
                if q == pv.take(k) {
                    assert(q.len() == k);
                }
                assert(find_change(cs2.changes(), q) == find_change(changes, q));
            }
            assert forall|mm: int| k < mm <= pv.len() implies #[trigger] eff_lookup(
                nodes,
                cs2.changes(),
                pv.take(mm),
            ) == Some(chain_node(anchorv, dom_id, pv, value@, mm)) by {
                assert(pv.take(mm).len() == mm);
                assert(find_change(cs2.changes(), pv.take(mm)) == Some(
                    ChangeView::Write(chain_node(anchorv, dom_id, pv, value@, mm)),
                ));
            }
            assert(pv.take(k).len() == k);
            assert(find_change(cs2.changes(), pv.take(k)) == Some(ChangeView::Write(anchor2v)));
            assert(eff_lookup(nodes, cs2.changes(), pv.take(k)) == Some(anchor2v));
        }
        Ok(cs2)
    }

    /// Creates the directory at `path` if it is missing; an existing
    /// writable node is left untouched, so the call is idempotent.
    pub fn mkdir(&self, change_set: &ChangeSet, dom_id: DomainId, path: Path) -> (r: Result<
        ChangeSet,
        Error,
    >)
        requires
            self.inv(),
            change_set.inv(),
            path_wf(path@),
        ensures
            r is Ok <==> write_ok(self.nodes(), change_set.changes(), dom_id, path@),
            r matches Ok(cs2) ==> (cs2.inv() && cs2.parent_gen() == change_set.parent_gen()
                && (match eff_lookup(self.nodes(), change_set.changes(), path@) {
                Some(_) => cs2.changes() == change_set.changes(),
                None => write_updated(
                    self.nodes(),
                    change_set.changes(),
                    cs2.changes(),
                    dom_id,
                    path@,
                    Seq::<char>::empty(),
                ),
            })),
            r matches Err(e) ==> e is EACCES,
    {
        match self.get_node(change_set, dom_id, &path, PERM_WRITE) {
            Ok(_) => Ok(change_set.duplicate()),
            Err(e) => {
                if matches!(e, Error::ENOENT(_)) {
                    let empty = String::new();
                    self.construct(change_set, dom_id, path, empty)
                } else {
                    Err(e)
                }
            }
        }
    }

    /// Removes the node at `path` and everything below it from the
    /// overlay, unlinking its basename from the parent. `EINVAL` on
    /// the root; `ENOENT` when the node or its parent is missing;
    /// `EACCES` when the parent, the node, or anything below it
    /// refuses writes from `dom_id`.
    pub fn rm(&self, change_set: &ChangeSet, dom_id: DomainId, path: &Path) -> (r: Result<
        ChangeSet,
        Error,
    >)
        requires
            self.inv(),
            change_set.inv(),
            path_wf(path@),
        ensures
            r is Ok <==> rm_ok(self.nodes(), change_set.changes(), dom_id, path@),
            r matches Ok(cs2) ==> (cs2.inv() && cs2.parent_gen() == change_set.parent_gen()
                && rm_updated(self.nodes(), change_set.changes(), cs2.changes(), path@)),
            r matches Err(e) ==> (if path@.len() == 0 {
                e is EINVAL
            } else {
                match eff_lookup(self.nodes(), change_set.changes(), path@.drop_last()) {
                    None => e is ENOENT,
                    Some(par) => {
                        if !spec_perms_ok(dom_id, par.permissions, PERM_WRITE) {
                            e is EACCES
                        } else {
                            match eff_lookup(self.nodes(), change_set.changes(), path@) {
                                None => e is ENOENT,
                                Some(_) => e is EACCES,
                            }
                        }
                    },
                }
            }),
    {
        let ghost nodes = self.nodes();
        let ghost csv = change_set.changes();
        let ghost pv = path@;
        if path.is_root() {
            return Err(Error::EINVAL(String::from_str("cannot remove the root directory")));
        }
        let ghost parentv = pv.drop_last();
        let parent = match path.parent() {
            Some(p) => p,
            None => {
                return Err(Error::EINVAL(String::from_str("cannot remove the root directory")));
            }
        };
        let basename = match path.basename() {
            Some(b) => b,
            None => {
                return Err(Error::EINVAL(String::from_str("cannot remove the root directory")));
            }
        };
        let parent_node = match self.get_node(change_set, dom_id, &parent, PERM_WRITE) {
            Ok(n) => n,
            Err(e) => {
                return Err(e);
            }
        };
        match self.get_node(change_set, dom_id, path, PERM_WRITE) {
            Ok(_) => {}
            Err(e) => {
                proof {
                    if eff_lookup(nodes, csv, pv) matches Some(nn) {
                        assert(pv.is_prefix_of(pv)) by {
                            assert(pv.subrange(0, pv.len() as int) =~= pv);
                        }
                    }
                }
                return Err(e);
            }
        }
        proof {
            lemma_eff_node_wf(nodes, csv, parentv);
        }
        let ghost parv = parent_node@;
        let mut parent2 = parent_node;
        let bchars = str_chars(basename.as_str());
        children_remove(&mut parent2.children, &bchars);
        let ghost parent2v = parent2@;
        proof {
            assert(!pv.is_prefix_of(parentv));
            assert(pv.is_prefix_of(pv)) by {
                assert(pv.subrange(0, pv.len() as int) =~= pv);
            }
        }
        let mut cs2 = change_set.duplicate();
        cs2.insert(Change::Write(parent2));
        let mut i: usize = 0;
        let m = self.store.len();
        while i < m
            invariant
                i <= m,
                m == self.store@.len(),
                nodes == self.nodes(),
                csv == change_set.changes(),
                changes_wf(csv),
                nodes_wf(nodes),
                pv == path@,
                pv.len() > 0,
                parentv == pv.drop_last(),
                cs2.inv(),
                cs2.parent_gen() == change_set.parent_gen(),
                (eff_lookup(nodes, csv, parentv) matches Some(pn) && spec_perms_ok(
                    dom_id,
                    pn.permissions,
                    PERM_WRITE,
                )),
                eff_lookup(nodes, csv, pv) is Some,
                rm_partial(nodes, csv, cs2.changes(), dom_id, pv, parent2v),
                forall|jj: int|
                    (0 <= jj < i && pv.is_prefix_of((#[trigger] nodes[jj]).path)) ==> eff_lookup(
                        nodes,
                        cs2.changes(),
                        nodes[jj].path,
                    ) is None,
            decreases m - i,
        {
            proof {
                assert(self.store@[i as int].deep_view() == nodes[i as int]);
            }
            let prefixed = self.store[i].path.is_child(path);
            if prefixed {
                match self.lookup(change_set, &self.store[i].path) {
                    Some(node) => {
                        proof {
                            lemma_eff_node_wf(nodes, csv, nodes[i as int].path);
                            assert(pv.is_prefix_of(node@.path)) by {
                                assert(node@.path == nodes[i as int].path);
                            }
                        }
                        if !node.perms_ok(dom_id, PERM_WRITE) {
                            return Err(
                                Error::EACCES(String::from_str("a node in the subtree refuses writes")),
                            );
                        }
                        proof {
                            assert(node@.path.len() > 0);
                        }
                        let ghost nv = node@;
                        let ghost before = cs2.changes();
                        cs2.insert(Change::Remove(node));
                        proof {
                            lemma_rm_step(
                                nodes,
                                csv,
                                before,
                                cs2.changes(),
                                dom_id,
                                pv,
                                parent2v,
                                nv,
                            );
                        }
                    }
                    None => {}
                }
            }
            i = i + 1;
        }
        let mut j: usize = 0;
        let cn = change_set.changes.len();
        while j < cn
            invariant
                j <= cn,
                cn == change_set.changes@.len(),
                nodes == self.nodes(),
                csv == change_set.changes(),
                changes_wf(csv),
                nodes_wf(nodes),
                pv == path@,
                pv.len() > 0,
                parentv == pv.drop_last(),
                cs2.inv(),
                cs2.parent_gen() == change_set.parent_gen(),
                (eff_lookup(nodes, csv, parentv) matches Some(pn) && spec_perms_ok(
                    dom_id,
                    pn.permissions,
                    PERM_WRITE,
                )),
                eff_lookup(nodes, csv, pv) is Some,
                rm_partial(nodes, csv, cs2.changes(), dom_id, pv, parent2v),
                forall|jj: int|
                    (0 <= jj < nodes.len() && pv.is_prefix_of((#[trigger] nodes[jj]).path))
                        ==> eff_lookup(nodes, cs2.changes(), nodes[jj].path) is None,
                forall|jj: int|
                    (0 <= jj < j && (#[trigger] csv[jj]) is Write && pv.is_prefix_of(
                        change_path(csv[jj]),
                    )) ==> eff_lookup(nodes, cs2.changes(), change_path(csv[jj])) is None,
            decreases cn - j,
        {
            proof {
                assert(change_set.changes@[j as int].deep_view() == csv[j as int]);
            }
            let is_write = matches!(&change_set.changes[j], Change::Write(_));
            if is_write {
                let wpath = change_set.changes[j].path();
                let prefixed = wpath.is_child(path);
                if prefixed {
                    let wp = wpath.duplicate();
                    match self.lookup(change_set, &wp) {
                        Some(node) => {
                            proof {
                                lemma_eff_node_wf(nodes, csv, change_path(csv[j as int]));
                                assert(pv.is_prefix_of(node@.path)) by {
                                    assert(node@.path == change_path(csv[j as int]));
                                }
                            }
                            if !node.perms_ok(dom_id, PERM_WRITE) {
                                return Err(
                                    Error::EACCES(
                                        String::from_str("a node in the subtree refuses writes"),
                                    ),
                                );
                            }
                            proof {
                                assert(node@.path.len() > 0);
                            }
                            let ghost nv = node@;
                            let ghost before = cs2.changes();
                            cs2.insert(Change::Remove(node));
                            proof {
                                lemma_rm_step(
                                    nodes,
                                    csv,
                                    before,
                                    cs2.changes(),
                                    dom_id,
                                    pv,
                                    parent2v,
                                    nv,
                                );
                            }
                        }
                        None => {}
                    }
                }
            }
            j = j + 1;
        }
        proof {
            // everything at or below the removed path is gone
            assert forall|q: PathView| pv.is_prefix_of(q) implies (#[trigger] eff_lookup(
                nodes,
                cs2.changes(),
                q,
            )) is None by {
                if eff_lookup(nodes, cs2.changes(), q) is Some {
                    assert(eff_lookup(nodes, cs2.changes(), q) == eff_lookup(nodes, csv, q));
                    match find_change(csv, q) {
                        Some(c) => {
                            lemma_find_change_present(csv, q);
                            let jj = choose|jj: int|
                                0 <= jj < csv.len() && #[trigger] csv[jj] == c;
                            assert(c is Write);
                            assert(eff_lookup(nodes, cs2.changes(), change_path(csv[jj])) is None);
                        }
                        None => {
                            lemma_find_node_present(nodes, q);
                            let n = find_node(nodes, q)->Some_0;
                            let jj = choose|jj: int|
                                0 <= jj < nodes.len() && #[trigger] nodes[jj] == n;
                            assert(eff_lookup(nodes, cs2.changes(), nodes[jj].path) is None);
                        }
                    }
                    assert(false);
                }
            }
            // and everything present below it was checked writable
            assert forall|q: PathView| pv.is_prefix_of(q) implies ((#[trigger] eff_lookup(
                nodes,
                csv,
                q,
            )) matches Some(nn) ==> spec_perms_ok(dom_id, nn.permissions, PERM_WRITE)) by {
                assert(eff_lookup(nodes, cs2.changes(), q) is None);
            }
        }
        Ok(cs2)
    }

    /// Replaces the whole permission list of the node at `path`.
    /// `ENOENT` when it is missing, `EACCES` when `dom_id` may not
    /// write it.
    pub fn set_perms(
        &self,
        change_set: &ChangeSet,
        dom_id: DomainId,
        path: &Path,
        permissions: Vec<Permission>,
    ) -> (r: Result<ChangeSet, Error>)
        requires
            self.inv(),
            change_set.inv(),
            path_wf(path@),
            permissions@.len() > 0,
        ensures
            r is Ok <==> (eff_lookup(self.nodes(), change_set.changes(), path@) matches Some(n)
                && spec_perms_ok(dom_id, n.permissions, PERM_WRITE)),
            r matches Ok(cs2) ==> (cs2.inv() && cs2.parent_gen() == change_set.parent_gen() && (
            forall|q: PathView|
                q != path@ ==> #[trigger] eff_lookup(self.nodes(), cs2.changes(), q) == eff_lookup(
                    self.nodes(),
                    change_set.changes(),
                    q,
                )) && eff_lookup(self.nodes(), cs2.changes(), path@) == Some(
                NodeView {
                    permissions: permissions@,
                    ..eff_lookup(self.nodes(), change_set.changes(), path@)->Some_0
                },
            )),
            r matches Err(e) ==> (match eff_lookup(self.nodes(), change_set.changes(), path@) {
                Some(n) => e is EACCES && !spec_perms_ok(dom_id, n.permissions, PERM_WRITE),
                None => e is ENOENT,
            }),
    {
        let ghost nodes = self.nodes();
        let ghost changes = change_set.changes();
        match self.get_node(change_set, dom_id, path, PERM_WRITE) {
            Ok(node) => {
                proof {
                    lemma_eff_node_wf(nodes, changes, path@);
                }
                let ghost old_node = node@;
                let mut node2 = node;
                node2.permissions = permissions;
                let mut cs2 = change_set.duplicate();
                cs2.insert(Change::Write(node2));
                proof {
                    assert(node2@ =~= NodeView { permissions: permissions@, ..old_node });
                    assert forall|q: PathView| q != path@ implies #[trigger] eff_lookup(
                        nodes,
                        cs2.changes(),
                        q,
                    ) == eff_lookup(nodes, changes, q) by {
                        assert(find_change(cs2.changes(), q) == find_change(changes, q));
                    }
                }
                Ok(cs2)
            }
            Err(e) => Err(e),
        }
    }
}

} // verus!
