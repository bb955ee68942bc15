//! Canonical absolute tree paths. A path is kept as its list of
//! components; the root is the empty list. Parsing accepts absolute
//! strings and relative ones, which are rewritten under the calling
//! domain's home directory `/local/domain/<dom-id>`.

use vstd::prelude::*;
use vstd::string::StringExecFns;
use vstd::string::StrSliceExecFns;
use vstd::string::StringSliceAdditionalSpecFns;
use crate::error::Error;
use crate::text::{
    str_chars,
    chars_string,
    chars_eq,
    split_sep,
    sep_free,
    lemma_split_sep_step,
    lemma_split_sep_last,
    dec_chars,
    fmt_u32,
};
use crate::wire::DomainId;

verus! {

/// The mathematical value of a path: its component list.
pub type PathView = Seq<Seq<char>>;

/// A usable path component: non-empty and free of separators.
pub open spec fn is_component(c: Seq<char>) -> bool {
    c.len() > 0 && sep_free(c, '/')
}

/// Every component of `p` is usable.
pub open spec fn path_wf(p: PathView) -> bool {
    forall|i: int| 0 <= i < p.len() ==> is_component(#[trigger] p[i])
}

/// The home directory components of a domain.
pub open spec fn domain_prefix(dom_id: DomainId) -> PathView {
    seq!["local"@, "domain"@, dec_chars(dom_id as nat)]
}

/// The components a path string parses to: absolute strings stand
/// alone, relative ones live under the domain's home directory.
pub open spec fn spec_parse_path(dom_id: DomainId, s: Seq<char>) -> PathView
    recommends
        s.len() > 0,
{
    if s[0] == '/' {
        split_sep(s, '/')
    } else {
        domain_prefix(dom_id) + split_sep(s, '/')
    }
}

/// The grammar of an accepted path string: non-empty, no doubled
/// separator, no trailing separator except in the root itself, and
/// within the byte-length bound of its kind.
pub open spec fn path_str_ok(s: Seq<char>, byte_len: int) -> bool {
    &&& s.len() > 0
    &&& forall|i: int| 0 <= i < s.len() - 1 ==> !(#[trigger] s[i] == '/' && s[i + 1] == '/')
    &&& (s.len() > 1 ==> s.last() != '/')
    &&& (if s[0] == '/' {
        byte_len <= 3072
    } else {
        byte_len <= 2048
    })
}

/// A canonical absolute tree path.
#[derive(Clone, Debug, Eq, Hash, PartialEq)]
pub struct Path {
    components: Vec<String>,
}

impl View for Path {
    type V = PathView;

    closed spec fn view(&self) -> PathView {
        self.components.deep_view()
    }
}

/// The digits of a number form a usable component.
pub proof fn lemma_dec_chars_component(n: nat)
    ensures
        is_component(dec_chars(n)),
    decreases n,
{
    if n >= 10 {
        lemma_dec_chars_component(n / 10);
        let prev = dec_chars(n / 10);
        let c = ((48 + n % 10) as u8) as char;
        assert(forall|i: int|
            0 <= i < prev.push(c).len() ==> prev.push(c)[i] == (if i < prev.len() {
                prev[i]
            } else {
                c
            }));
    }
}

/// The home directory path of a domain: `/local/domain/<dom-id>`.
pub fn get_domain_path(dom_id: DomainId) -> (r: Path)
    ensures
        r@ == domain_prefix(dom_id),
        path_wf(r@),
{
    let mut components: Vec<String> = Vec::new();
    components.push("local".to_owned());
    components.push("domain".to_owned());
    let digits = fmt_u32(dom_id);
    components.push(chars_string(&digits));
    let r = Path { components };
    proof {
        assert(r@ =~= domain_prefix(dom_id));
        lemma_dec_chars_component(dom_id as nat);
        reveal_strlit("local");
        reveal_strlit("domain");
        assert forall|i: int| 0 <= i < r@.len() implies is_component(#[trigger] r@[i]) by {
            if i == 0 {
                assert(is_component("local"@));
            } else if i == 1 {
                assert(is_component("domain"@));
            }
        }
    }
    r
}

impl Path {
    /// The root path `/`.
    pub fn root() -> (r: Path)
        ensures
            r@ == Seq::<Seq<char>>::empty(),
            path_wf(r@),
    {
        let r = Path { components: Vec::new() };
        proof {
            assert(r@ =~= Seq::<Seq<char>>::empty());
        }
        r
    }

    /// Whether this is the root path `/`.
    pub fn is_root(&self) -> (r: bool)
        ensures
            r == (self@.len() == 0),
    {
        self.components.len() == 0
    }

    /// An owned copy of this path.
    pub fn duplicate(&self) -> (r: Path)
        ensures
            r@ == self@,
    {
        broadcast use vstd::std_specs::vec::vec_clone_deep_view_proof;

        let components = self.components.clone();
        proof {
            assert(components.deep_view() =~~= self.components.deep_view());
        }
        Path { components }
    }

    /// Parses a path string for `dom_id`, rejecting strings outside
    /// the path grammar with `EINVAL`.
    pub fn try_from(dom_id: DomainId, s: &str) -> (r: Result<Path, Error>)
        ensures
            r is Ok <==> path_str_ok(s@, (s.spec_bytes().len() as usize) as int),
            r matches Ok(p) ==> p@ == spec_parse_path(dom_id, s@),
            r matches Ok(p) ==> path_wf(p@),
            r matches Err(e) ==> e is EINVAL,
    {
        let cs = str_chars(s);
        if cs.len() == 0 {
            return Err(Error::EINVAL(String::from_str("empty path is not allowed")));
        }
        let n = cs.len();
        let mut i: usize = 0;
        while i + 1 < n
            invariant
                cs@ == s@,
                n == cs@.len(),
                i < n,
                forall|j: int| 0 <= j < i ==> !(#[trigger] cs@[j] == '/' && cs@[j + 1] == '/'),
            decreases cs@.len() - i,
        {
            if cs[i] == '/' && cs[i + 1] == '/' {
                return Err(Error::EINVAL(String::from_str("doubled / is not allowed")));
            }
            i = i + 1;
        }
        if cs.len() > 1 && cs[cs.len() - 1] == '/' {
            return Err(Error::EINVAL(String::from_str("trailing / is not allowed")));
        }
        let absolute = cs[0] == '/';
        if absolute {
            if s.len() > 3072 {
                return Err(Error::EINVAL(String::from_str("absolute path is too long")));
            }
        } else {
            if s.len() > 2048 {
                return Err(Error::EINVAL(String::from_str("relative path is too long")));
            }
        }
        let tail = components_of(&cs);
        if absolute {
            Ok(Path { components: tail })
        } else {
            let mut base = get_domain_path(dom_id);
            let mut j: usize = 0;
            let ghost base0 = base@;
            let ghost tailv = tail.deep_view();
            while j < tail.len()
                invariant
                    j <= tailv.len(),
                    tail.deep_view() == tailv,
                    tail@.len() == tailv.len(),
                    base@ == base0 + tailv.take(j as int),
                decreases tailv.len() - j,
            {
                let ghost before = base@;
                let c = duplicate_string(&tail[j]);
                proof {
                    assert(tail@[j as int].deep_view() == tailv[j as int]);
                }
                base.components.push(c);
                proof {
                    assert(base@ =~~= before.push(tailv[j as int]));
                    assert(before.push(tailv[j as int]) =~= base0 + tailv.take(j + 1));
                }
                j = j + 1;
            }
            proof {
                assert(tailv.take(j as int) =~= tailv);
                assert(base@ =~= domain_prefix(dom_id) + split_sep(s@, '/'));
                assert forall|k: int| 0 <= k < base@.len() implies is_component(
                    #[trigger] base@[k],
                ) by {
                    if k >= base0.len() {
                        assert(base@[k] == tailv[k - base0.len()]);
                    } else {
                        assert(base@[k] == base0[k]);
                    }
                }
            }
            Ok(base)
        }
    }

    /// The last component, or nothing for the root.
    pub fn basename(&self) -> (r: Option<String>)
        ensures
            r is Some <==> self@.len() > 0,
            r matches Some(b) ==> b@ == self@.last(),
    {
        if self.components.len() == 0 {
            None
        } else {
            let b = duplicate_string(&self.components[self.components.len() - 1]);
            proof {
                assert(self.components@[self.components@.len() - 1].deep_view() == self@.last());
            }
            Some(b)
        }
    }

    /// The parent path, or nothing for the root.
    pub fn parent(&self) -> (r: Option<Path>)
        ensures
            r is Some <==> self@.len() > 0,
            r matches Some(p) ==> p@ == self@.drop_last(),
    {
        if self.components.len() == 0 {
            None
        } else {
            let mut components: Vec<String> = Vec::new();
            let mut i: usize = 0;
            while i < self.components.len() - 1
                invariant
                    self@.len() > 0,
                    i <= self@.len() - 1,
                    self@.len() == self.components@.len(),
                    components.deep_view() == self@.take(i as int),
                decreases self@.len() - 1 - i,
            {
                let ghost before = components.deep_view();
                let c = duplicate_string(&self.components[i]);
                proof {
                    assert(self.components@[i as int].deep_view() == self@[i as int]);
                }
                components.push(c);
                proof {
                    assert(components.deep_view() =~~= before.push(self@[i as int]));
                    assert(before.push(self@[i as int]) =~= self@.take(i + 1));
                }
                i = i + 1;
            }
            proof {
                assert(self@.take(i as int) =~= self@.drop_last());
            }
            Some(Path { components })
        }
    }

    /// The path extended by one component.
    pub fn push(&self, component: &str) -> (r: Path)
        ensures
            r@ == self@.push(component@),
    {
        let mut r = self.duplicate();
        let ghost before = r@;
        let c = component.to_owned();
        r.components.push(c);
        proof {
            assert(r@ =~~= before.push(component@));
        }
        r
    }

    /// Whether `self` sits at or below `parent` in the tree.
    pub fn is_child(&self, parent: &Path) -> (r: bool)
        ensures
            r == parent@.is_prefix_of(self@),
    {
        if parent.components.len() > self.components.len() {
            proof {
                assert(!parent@.is_prefix_of(self@));
            }
            return false;
        }
        let mut i: usize = 0;
        while i < parent.components.len()
            invariant
                i <= parent@.len(),
                parent@.len() <= self@.len(),
                parent@.len() == parent.components@.len(),
                self@.len() == self.components@.len(),
                forall|j: int| 0 <= j < i ==> parent@[j] == self@[j],
            decreases parent@.len() - i,
        {
            let pa = str_chars(parent.components[i].as_str());
            let sa = str_chars(self.components[i].as_str());
            proof {
                assert(parent.components@[i as int].deep_view() == parent@[i as int]);
                assert(self.components@[i as int].deep_view() == self@[i as int]);
            }
            if !chars_eq(&pa, &sa) {
                proof {
                    assert(parent@[i as int] != self@[i as int]);
                    assert(!parent@.is_prefix_of(self@));
                }
                return false;
            }
            i = i + 1;
        }
        proof {
            assert(parent@ =~= self@.subrange(0, parent@.len() as int));
        }
        true
    }

    /// Whether the two paths name the same node.
    pub fn same_as(&self, other: &Path) -> (r: bool)
        ensures
            r == (self@ == other@),
    {
        if self.components.len() != other.components.len() {
            proof {
                assert(self@.len() != other@.len());
            }
            return false;
        }
        let mut i: usize = 0;
        while i < self.components.len()
            invariant
                i <= self@.len(),
                self@.len() == other@.len(),
                self@.len() == self.components@.len(),
                other@.len() == other.components@.len(),
                forall|j: int| 0 <= j < i ==> self@[j] == other@[j],
            decreases self@.len() - i,
        {
            let pa = str_chars(self.components[i].as_str());
            let sa = str_chars(other.components[i].as_str());
            proof {
                assert(self.components@[i as int].deep_view() == self@[i as int]);
                assert(other.components@[i as int].deep_view() == other@[i as int]);
            }
            if !chars_eq(&pa, &sa) {
                proof {
                    assert(self@[i as int] != other@[i as int]);
                }
                return false;
            }
            i = i + 1;
        }
        proof {
            assert(self@ =~= other@);
        }
        true
    }

    /// The number of components.
    pub fn depth(&self) -> (r: usize)
        ensures
            r == self@.len(),
    {
        self.components.len()
    }

    /// The component at `i`.
    pub fn component(&self, i: usize) -> (r: String)
        requires
            i < self@.len(),
        ensures
            r@ == self@[i as int],
    {
        let r = duplicate_string(&self.components[i]);
        proof {
            assert(self.components@[i as int].deep_view() == self@[i as int]);
        }
        r
    }

    /// The ancestor made of the first `m` components.
    pub fn prefix(&self, m: usize) -> (r: Path)
        requires
            m <= self@.len(),
        ensures
            r@ == self@.take(m as int),
    {
        let mut components: Vec<String> = Vec::new();
        let mut i: usize = 0;
        proof {
            assert(components.deep_view() =~= self@.take(0));
        }
        while i < m
            invariant
                i <= m <= self@.len(),
                self@.len() == self.components@.len(),
                components.deep_view() == self@.take(i as int),
            decreases m - i,
        {
            let ghost before = components.deep_view();
            let c = duplicate_string(&self.components[i]);
            proof {
                assert(self.components@[i as int].deep_view() == self@[i as int]);
            }
            components.push(c);
            proof {
                assert(components.deep_view() =~~= before.push(self@[i as int]));
                assert(before.push(self@[i as int]) =~= self@.take(i + 1));
            }
            i = i + 1;
        }
        Path { components }
    }

    /// Yields this path, then each ancestor up to the root.
    pub fn into_iter(self) -> (it: ParentIterator)
        ensures
            it@ == Some(self@),
    {
        ParentIterator { cur: Some(self) }
    }

    /// The string this path prints as.
    pub open spec fn spec_render(p: PathView) -> Seq<char> {
        if p.len() == 0 {
            seq!['/']
        } else {
            render_parts(p)
        }
    }

    /// Renders the path: `/` for the root, else each component
    /// prefixed by a separator.
    pub fn render(&self) -> (r: String)
        ensures
            r@ == Path::spec_render(self@),
    {
        let mut out: Vec<char> = Vec::new();
        if self.components.len() == 0 {
            out.push('/');
            proof {
                assert(out@ =~= seq!['/']);
            }
            return chars_string(&out);
        }
        let mut i: usize = 0;
        proof {
            assert(self@.take(0) =~= Seq::<Seq<char>>::empty());
        }
        while i < self.components.len()
            invariant
                i <= self@.len(),
                self@.len() == self.components@.len(),
                out@ == render_parts(self@.take(i as int)),
            decreases self@.len() - i,
        {
            proof {
                lemma_render_push(self@.take(i as int), self@[i as int]);
                assert(self@.take(i as int).push(self@[i as int]) =~= self@.take(i + 1));
            }
            out.push('/');
            let cs = str_chars(self.components[i].as_str());
            proof {
                assert(self.components@[i as int].deep_view() == self@[i as int]);
            }
            let mut j: usize = 0;
            let ghost out0 = out@;
            while j < cs.len()
                invariant
                    j <= cs@.len(),
                    out@ == out0 + cs@.take(j as int),
                decreases cs@.len() - j,
            {
                out.push(cs[j]);
                proof {
                    assert(out@ =~= out0 + cs@.take(j + 1));
                }
                j = j + 1;
            }
            proof {
                assert(cs@.take(cs@.len() as int) =~= cs@);
                assert(out@ =~= render_parts(self@.take(i as int)) + (seq!['/'] + self@[i as int]));
            }
            i = i + 1;
        }
        proof {
            assert(self@.take(i as int) =~= self@);
        }
        chars_string(&out)
    }

    /// The rendered path as bytes, for the wire.
    pub fn as_bytes(&self) -> (r: Vec<u8>)
        ensures
            r@ == vstd::utf8::encode_utf8(Path::spec_render(self@)),
    {
        let s = self.render();
        s.as_str().as_bytes_vec()
    }
}

/// The rendered form of a non-root path: each component prefixed by
/// a separator.
pub open spec fn render_parts(p: PathView) -> Seq<char>
    decreases p.len(),
{
    if p.len() == 0 {
        Seq::empty()
    } else {
        seq!['/'] + p[0] + render_parts(p.drop_first())
    }
}

proof fn lemma_render_push(p: PathView, x: Seq<char>)
    ensures
        render_parts(p.push(x)) == render_parts(p) + (seq!['/'] + x),
    decreases p.len(),
{
    if p.len() == 0 {
        assert(p.push(x).drop_first() =~= Seq::<Seq<char>>::empty());
        assert(p.push(x)[0] == x);
        assert(render_parts(p.push(x)) == seq!['/'] + x + render_parts(
            Seq::<Seq<char>>::empty(),
        ));
        assert(seq!['/'] + x + Seq::<char>::empty() =~= Seq::<char>::empty() + (seq!['/'] + x));
    } else {
        lemma_render_push(p.drop_first(), x);
        assert(p.push(x).drop_first() =~= p.drop_first().push(x));
        assert(p.push(x)[0] == p[0]);
        assert(render_parts(p.push(x)) == seq!['/'] + p[0] + (render_parts(p.drop_first()) + (
        seq!['/'] + x)));
        assert(seq!['/'] + p[0] + (render_parts(p.drop_first()) + (seq!['/'] + x)) =~= (seq!['/']
            + p[0] + render_parts(p.drop_first())) + (seq!['/'] + x));
    }
}

/// An owned copy of a string.
pub fn duplicate_string(s: &String) -> (r: String)
    ensures
        r@ == s@,
{
    s.clone()
}

/// Splits a character sequence into separator-free components.
fn components_of(cs: &Vec<char>) -> (r: Vec<String>)
    ensures
        r.deep_view() == split_sep(cs@, '/'),
        path_wf(r.deep_view()),
{
    let mut fields: Vec<String> = Vec::new();
    let mut cur: Vec<char> = Vec::new();
    let mut i: usize = 0;
    let ghost mut done: Seq<Seq<char>> = Seq::empty();
    proof {
        assert(fields.deep_view() =~~= done);
        assert(cur@ + cs@.skip(0) =~= cs@);
        assert(done + split_sep(cur@ + cs@.skip(0), '/') =~= split_sep(cs@, '/'));
    }
    while i < cs.len()
        invariant
            i <= cs@.len(),
            sep_free(cur@, '/'),
            fields.deep_view() == done,
            path_wf(done),
            split_sep(cs@, '/') == done + split_sep(cur@ + cs@.skip(i as int), '/'),
        decreases cs@.len() - i,
    {
        let b = cs[i];
        if b == '/' {
            proof {
                assert(cur@ + cs@.skip(i as int) =~= cur@ + seq!['/'] + cs@.skip(i + 1));
                lemma_split_sep_step(cur@, '/', cs@.skip(i + 1));
            }
            if cur.len() > 0 {
                let ghost curv = cur@;
                let finished = chars_string(&cur);
                cur = Vec::new();
                fields.push(finished);
                proof {
                    assert(done + (seq![curv] + split_sep(cs@.skip(i + 1), '/')) =~= done.push(
                        curv,
                    ) + split_sep(cs@.skip(i + 1), '/'));
                    done = done.push(curv);
                    assert(fields.deep_view() =~~= done);
                    assert(cur@ + cs@.skip(i + 1) =~= cs@.skip(i + 1));
                }
            } else {
                proof {
                    assert(cur@ + cs@.skip(i + 1) =~= cs@.skip(i + 1));
                }
            }
        } else {
            proof {
                assert((cur@ + cs@.skip(i as int)) =~= (cur@.push(b) + cs@.skip(i + 1)));
            }
            cur.push(b);
        }
        i = i + 1;
    }
    proof {
        assert(cur@ + cs@.skip(i as int) =~= cur@);
        lemma_split_sep_last(cur@, '/');
    }
    if cur.len() > 0 {
        let ghost curv = cur@;
        let finished = chars_string(&cur);
        fields.push(finished);
        proof {
            assert(done + seq![curv] =~= done.push(curv));
            assert(fields.deep_view() =~~= done.push(curv));
        }
    } else {
        proof {
            assert(done + Seq::<Seq<char>>::empty() =~= done);
        }
    }
    fields
}

/// Walks from a path up through its ancestors to the root.
pub struct ParentIterator {
    cur: Option<Path>,
}

impl View for ParentIterator {
    type V = Option<PathView>;

    closed spec fn view(&self) -> Option<PathView> {
        match self.cur {
            Some(ref p) => Some(p@),
            None => None,
        }
    }
}

impl ParentIterator {
    /// The current path, stepping the iterator to its parent; the
    /// root is the last path yielded.
    pub fn next(&mut self) -> (r: Option<Path>)
        ensures
            old(self)@ is None ==> (r is None && final(self)@ is None),
            old(self)@ matches Some(p) ==> (r matches Some(q) && q@ == p && final(self)@ == (if p.len()
                > 0 {
                Some(p.drop_last())
            } else {
                None::<PathView>
            })),
    {
        let cur = self.cur.take();
        match cur {
            None => None,
            Some(p) => {
                self.cur = p.parent();
                Some(p)
            }
        }
    }
}

} // verus!
