//! The binary wire format: a 16-byte header of four little-endian
//! 32-bit words, followed by a body of at most 4096 bytes made of
//! NUL-separated fields. Empty fields are never emitted and are
//! dropped on decode; a trailing NUL is tolerated but not required.

use vstd::prelude::*;
use vstd::slice::slice_subrange;
use vstd::string::StringExecFns;
use crate::error::Error;

verus! {

/// Message types.
pub const XS_DEBUG: u32 = 0;

pub const XS_DIRECTORY: u32 = 1;

pub const XS_READ: u32 = 2;

pub const XS_GET_PERMS: u32 = 3;

pub const XS_WATCH: u32 = 4;

pub const XS_UNWATCH: u32 = 5;

pub const XS_TRANSACTION_START: u32 = 6;

pub const XS_TRANSACTION_END: u32 = 7;

pub const XS_INTRODUCE: u32 = 8;

pub const XS_RELEASE: u32 = 9;

pub const XS_GET_DOMAIN_PATH: u32 = 10;

pub const XS_WRITE: u32 = 11;

pub const XS_MKDIR: u32 = 12;

pub const XS_RM: u32 = 13;

pub const XS_SET_PERMS: u32 = 14;

pub const XS_WATCH_EVENT: u32 = 15;

pub const XS_ERROR: u32 = 16;

pub const XS_IS_DOMAIN_INTRODUCED: u32 = 17;

pub const XS_RESUME: u32 = 18;

pub const XS_SET_TARGET: u32 = 19;

pub const XS_RESTRICT: u32 = 20;

pub const XS_RESET_WATCHES: u32 = 21;

pub const XS_INVALID: u32 = 0xffff;

/// Protocol limits.
pub const XENSTORE_PAYLOAD_MAX: usize = 4096;

pub const XENSTORE_ABS_PATH_MAX: usize = 3072;

pub const XENSTORE_REL_PATH_MAX: usize = 2048;

pub type ReqId = u32;

pub type TxId = u32;

pub type DomainId = u32;

/// A `Header` is always 16 bytes long.
pub const HEADER_SIZE: usize = 16;

/// A `Body` is at most 4k.
pub const BODY_SIZE: usize = 4096;

/// The little-endian bytes of a 32-bit word.
pub open spec fn u32_le(x: u32) -> Seq<u8> {
    seq![
        (x % 256) as u8,
        ((x / 256) % 256) as u8,
        ((x / 65536) % 256) as u8,
        ((x / 16777216) % 256) as u8,
    ]
}

/// The 32-bit word read from four little-endian bytes.
pub open spec fn u32_of_le(s: Seq<u8>) -> u32
    recommends
        s.len() >= 4,
{
    (s[0] as int + s[1] as int * 256 + s[2] as int * 65536 + s[3] as int * 16777216) as u32
}

/// Reading back the four bytes of a word gives the word.
pub proof fn lemma_u32_le_round(x: u32)
    ensures
        u32_of_le(u32_le(x)) == x,
{
    assert(x % 256 + (x / 256) % 256 * 256 + (x / 65536) % 256 * 65536 + (x / 16777216) % 256
        * 16777216 == x) by (bit_vector);
}

/// The fixed-size message header.
#[derive(Clone, Copy, Debug, PartialEq, Eq, Structural)]
pub struct Header {
    pub msg_type: u32,
    pub req_id: ReqId,
    pub tx_id: TxId,
    pub len: u32,
}

impl Header {
    /// The 16 bytes that carry this header on the wire.
    pub open spec fn spec_bytes(&self) -> Seq<u8> {
        u32_le(self.msg_type) + u32_le(self.req_id) + u32_le(self.tx_id) + u32_le(self.len)
    }

    /// The header read from the first 16 bytes of `s`.
    pub open spec fn spec_parse(s: Seq<u8>) -> Header
        recommends
            s.len() >= 16,
    {
        Header {
            msg_type: u32_of_le(s.subrange(0, 4)),
            req_id: u32_of_le(s.subrange(4, 8)),
            tx_id: u32_of_le(s.subrange(8, 12)),
            len: u32_of_le(s.subrange(12, 16)),
        }
    }

    /// Parses a header; needs at least 16 buffered bytes.
    pub fn parse(bytes: &[u8]) -> (r: Option<Header>)
        ensures
            r is Some <==> bytes@.len() >= 16,
            r matches Some(h) ==> h == Header::spec_parse(bytes@),
    {
        if bytes.len() < 16 {
            return None;
        }
        let msg_type = read_u32_le(bytes, 0);
        let req_id = read_u32_le(bytes, 4);
        let tx_id = read_u32_le(bytes, 8);
        let len = read_u32_le(bytes, 12);
        Some(Header { msg_type, req_id, tx_id, len })
    }

    /// Writes the header out as its 16 wire bytes.
    pub fn to_vec(&self) -> (r: Vec<u8>)
        ensures
            r@ == self.spec_bytes(),
    {
        let mut r: Vec<u8> = Vec::new();
        push_u32_le(&mut r, self.msg_type);
        push_u32_le(&mut r, self.req_id);
        push_u32_le(&mut r, self.tx_id);
        push_u32_le(&mut r, self.len);
        proof {
            assert(r@ =~= self.spec_bytes());
        }
        r
    }

    /// The length that the body should be.
    pub fn len(&self) -> (r: usize)
        ensures
            r == self.len as usize,
    {
        self.len as usize
    }

    /// A header read back from its own bytes is itself.
    pub proof fn lemma_round_trip(self)
        ensures
            Header::spec_parse(self.spec_bytes()) == self,
    {
        lemma_u32_le_round(self.msg_type);
        lemma_u32_le_round(self.req_id);
        lemma_u32_le_round(self.tx_id);
        lemma_u32_le_round(self.len);
        assert(self.spec_bytes().subrange(0, 4) =~= u32_le(self.msg_type));
        assert(self.spec_bytes().subrange(4, 8) =~= u32_le(self.req_id));
        assert(self.spec_bytes().subrange(8, 12) =~= u32_le(self.tx_id));
        assert(self.spec_bytes().subrange(12, 16) =~= u32_le(self.len));
    }
}

/// Reads the little-endian word at `off`.
fn read_u32_le(bytes: &[u8], off: usize) -> (r: u32)
    requires
        off + 4 <= bytes@.len(),
    ensures
        r == u32_of_le(bytes@.subrange(off as int, off as int + 4)),
{
    let b0 = bytes[off] as u32;
    let b1 = bytes[off + 1] as u32;
    let b2 = bytes[off + 2] as u32;
    let b3 = bytes[off + 3] as u32;
    let ghost s = bytes@.subrange(off as int, off as int + 4);
    proof {
        assert(s[0] == bytes@[off as int]);
        assert(s[1] == bytes@[off as int + 1]);
        assert(s[2] == bytes@[off as int + 2]);
        assert(s[3] == bytes@[off as int + 3]);
    }
    b0 + b1 * 256 + b2 * 65536 + b3 * 16777216
}

/// Appends the four little-endian bytes of `x`.
fn push_u32_le(v: &mut Vec<u8>, x: u32)
    ensures
        final(v)@ == old(v)@ + u32_le(x),
{
    v.push((x % 256) as u8);
    v.push(((x / 256) % 256) as u8);
    v.push(((x / 65536) % 256) as u8);
    v.push(((x / 16777216) % 256) as u8);
    proof {
        assert(v@ =~= old(v)@ + u32_le(x));
    }
}

/// The body fields encoded in `s`: split at NUL bytes, dropping
/// empty segments.
pub open spec fn split_fields(s: Seq<u8>) -> Seq<Seq<u8>> {
    crate::text::split_sep(s, 0u8)
}

/// The wire bytes of a field list: each non-empty field followed by
/// a single NUL; empty fields contribute nothing.
pub open spec fn join_fields(fields: Seq<Seq<u8>>) -> Seq<u8>
    decreases fields.len(),
{
    if fields.len() == 0 {
        Seq::empty()
    } else {
        (if fields[0].len() == 0 {
            Seq::<u8>::empty()
        } else {
            fields[0] + seq![0u8]
        }) + join_fields(fields.drop_first())
    }
}

/// The field list with empty fields dropped.
pub open spec fn normalize(fields: Seq<Seq<u8>>) -> Seq<Seq<u8>> {
    fields.filter(|f: Seq<u8>| f.len() != 0)
}

/// A field that can be carried on the wire holds no NUL byte.
pub open spec fn nul_free(f: Seq<u8>) -> bool {
    crate::text::sep_free(f, 0u8)
}

/// Splitting a NUL-free field followed by a separator and more bytes
/// yields that field (if non-empty) and the split of the rest.
pub proof fn lemma_split_step(f: Seq<u8>, r: Seq<u8>)
    requires
        nul_free(f),
    ensures
        split_fields(f + seq![0u8] + r) == (if f.len() == 0 {
            split_fields(r)
        } else {
            seq![f] + split_fields(r)
        }),
{
    crate::text::lemma_split_sep_step(f, 0u8, r);
}

/// Splitting a NUL-free tail without a terminator yields the tail
/// itself (if non-empty).
pub proof fn lemma_split_last(f: Seq<u8>)
    requires
        nul_free(f),
    ensures
        split_fields(f) == (if f.len() == 0 {
            Seq::<Seq<u8>>::empty()
        } else {
            seq![f]
        }),
{
    crate::text::lemma_split_sep_last(f, 0u8);
}

/// Appending one more field to a join appends its wire bytes.
pub proof fn lemma_join_push(fields: Seq<Seq<u8>>, x: Seq<u8>)
    ensures
        join_fields(fields.push(x)) == join_fields(fields) + (if x.len() == 0 {
            Seq::<u8>::empty()
        } else {
            x + seq![0u8]
        }),
    decreases fields.len(),
{
    let ghost seg = if x.len() == 0 {
        Seq::<u8>::empty()
    } else {
        x + seq![0u8]
    };
    let ghost seg0 = if fields.len() > 0 && fields[0].len() == 0 {
        Seq::<u8>::empty()
    } else if fields.len() > 0 {
        fields[0] + seq![0u8]
    } else {
        Seq::<u8>::empty()
    };
    if fields.len() == 0 {
        assert(fields.push(x).drop_first() =~= Seq::<Seq<u8>>::empty());
        assert(fields.push(x)[0] == x);
        assert(join_fields(fields.push(x)) == seg + join_fields(Seq::<Seq<u8>>::empty()));
        assert(join_fields(fields) =~= Seq::<u8>::empty());
        assert(seg + Seq::<u8>::empty() =~= Seq::<u8>::empty() + seg);
    } else {
        lemma_join_push(fields.drop_first(), x);
        assert(fields.push(x).drop_first() =~= fields.drop_first().push(x));
        assert(fields.push(x)[0] == fields[0]);
        assert(join_fields(fields.push(x)) == seg0 + join_fields(fields.drop_first().push(x)));
        assert(join_fields(fields.push(x)) == seg0 + (join_fields(fields.drop_first()) + seg));
        assert(join_fields(fields) == seg0 + join_fields(fields.drop_first()));
        assert(seg0 + (join_fields(fields.drop_first()) + seg) =~= (seg0 + join_fields(
            fields.drop_first(),
        )) + seg);
    }
}

/// The ordered NUL-separated body fields.
#[derive(Clone, Debug, PartialEq)]
pub struct Body(pub Vec<Vec<u8>>);

impl View for Body {
    type V = Seq<Seq<u8>>;

    open spec fn view(&self) -> Seq<Seq<u8>> {
        self.0.deep_view()
    }
}

impl Body {
    /// Splits `body` into fields; needs `body` to have exactly the
    /// length announced by the header.
    pub fn parse(header: &Header, body: &[u8]) -> (r: Option<Body>)
        ensures
            r is Some <==> header.len as int == body@.len(),
            r matches Some(b) ==> b@ == split_fields(body@),
    {
        if header.len as usize != body.len() {
            return None;
        }
        let mut fields: Vec<Vec<u8>> = Vec::new();
        let mut cur: Vec<u8> = Vec::new();
        let mut i: usize = 0;
        let ghost mut done: Seq<Seq<u8>> = Seq::empty();
        proof {
            assert(fields.deep_view() =~~= done);
            assert(cur@ + body@.skip(0) =~= body@);
            assert(done + split_fields(cur@ + body@.skip(0)) =~= split_fields(body@));
        }
        while i < body.len()
            invariant
                i <= body@.len(),
                nul_free(cur@),
                fields.deep_view() == done,
                split_fields(body@) == done + split_fields(cur@ + body@.skip(i as int)),
            decreases body@.len() - i,
        {
            let b = body[i];
            if b == 0 {
                proof {
                    assert(cur@ + body@.skip(i as int) =~= cur@ + seq![0u8] + body@.skip(i + 1));
                    lemma_split_step(cur@, body@.skip(i + 1));
                }
                if cur.len() > 0 {
                    let ghost curv = cur@;
                    let finished = cur;
                    cur = Vec::new();
                    fields.push(finished);
                    proof {
                        assert(done + (seq![curv] + split_fields(body@.skip(i + 1))) =~= done.push(
                            curv,
                        ) + split_fields(body@.skip(i + 1)));
                        done = done.push(curv);
                        assert(fields.deep_view() =~~= done);
                        assert(cur@ + body@.skip(i + 1) =~= body@.skip(i + 1));
                    }
                } else {
                    proof {
                        assert(cur@ + body@.skip(i + 1) =~= body@.skip(i + 1));
                    }
                }
            } else {
                proof {
                    assert((cur@ + body@.skip(i as int)) =~= (cur@.push(b) + body@.skip(i + 1)));
                }
                cur.push(b);
            }
            i = i + 1;
        }
        proof {
            assert(cur@ + body@.skip(i as int) =~= cur@);
            lemma_split_last(cur@);
        }
        if cur.len() > 0 {
            let ghost curv = cur@;
            fields.push(cur);
            proof {
                assert(done + seq![curv] =~= done.push(curv));
                assert(fields.deep_view() =~~= done.push(curv));
            }
        } else {
            proof {
                assert(done + Seq::<Seq<u8>>::empty() =~= done);
            }
        }
        Some(Body(fields))
    }

    /// Writes the body out: each non-empty field followed by one NUL.
    pub fn to_vec(&self) -> (r: Vec<u8>)
        ensures
            r@ == join_fields(self@),
    {
        let mut r: Vec<u8> = Vec::new();
        let mut i: usize = 0;
        proof {
            assert(self@.take(0) =~= Seq::<Seq<u8>>::empty());
        }
        while i < self.0.len()
            invariant
                i <= self@.len(),
                self@.len() == self.0@.len(),
                r@ == join_fields(self@.take(i as int)),
            decreases self@.len() - i,
        {
            proof {
                lemma_join_push(self@.take(i as int), self@[i as int]);
                assert(self@.take(i as int).push(self@[i as int]) =~= self@.take(i + 1));
            }
            let field = &self.0[i];
            if field.len() > 0 {
                let mut j: usize = 0;
                let ghost r0 = r@;
                while j < field.len()
                    invariant
                        j <= field@.len(),
                        field@ == self@[i as int],
                        field@.len() > 0,
                        r@ == r0 + field@.take(j as int),
                    decreases field@.len() - j,
                {
                    r.push(field[j]);
                    proof {
                        assert(r@ =~= r0 + field@.take(j + 1));
                    }
                    j = j + 1;
                }
                r.push(0);
                proof {
                    assert(field@.take(field@.len() as int) =~= field@);
                    assert(r@ =~= join_fields(self@.take(i as int)) + (field@ + seq![0u8]));
                }
            } else {
                proof {
                    assert(r@ =~= join_fields(self@.take(i as int)) + Seq::<u8>::empty());
                }
            }
            i = i + 1;
        }
        proof {
            assert(self@.take(i as int) =~= self@);
        }
        r
    }

    /// The number of bytes `to_vec` would emit.
    pub fn len(&self) -> (r: usize)
        requires
            join_fields(self@).len() <= usize::MAX,
        ensures
            r == join_fields(self@).len(),
    {
        let mut n: usize = 0;
        let mut i: usize = 0;
        proof {
            assert(self@.take(0) =~= Seq::<Seq<u8>>::empty());
        }
        while i < self.0.len()
            invariant
                i <= self@.len(),
                self@.len() == self.0@.len(),
                join_fields(self@).len() <= usize::MAX,
                n == join_fields(self@.take(i as int)).len(),
            decreases self@.len() - i,
        {
            proof {
                lemma_join_push(self@.take(i as int), self@[i as int]);
                assert(self@.take(i as int).push(self@[i as int]) =~= self@.take(i + 1));
                lemma_join_take_le(self@, i + 1);
            }
            let field = &self.0[i];
            if field.len() > 0 {
                n = n + field.len() + 1;
            }
            i = i + 1;
        }
        proof {
            assert(self@.take(i as int) =~= self@);
        }
        n
    }
}

/// A prefix of the fields never joins to more bytes than the whole.
pub proof fn lemma_join_take_le(fields: Seq<Seq<u8>>, k: int)
    requires
        0 <= k <= fields.len(),
    ensures
        join_fields(fields.take(k)).len() <= join_fields(fields).len(),
    decreases fields.len() - k,
{
    if k < fields.len() {
        lemma_join_take_le(fields, k + 1);
        lemma_join_push(fields.take(k), fields[k]);
        assert(fields.take(k).push(fields[k]) =~= fields.take(k + 1));
    } else {
        assert(fields.take(k) =~= fields);
    }
}

/// The framing codec: pairs a header with its body bytes.
pub struct XenStoreCodec;

impl XenStoreCodec {
    /// Decodes one frame from the front of `buf`. Yields nothing
    /// until at least `16 + body_len` bytes are buffered; refuses a
    /// frame whose announced body exceeds the payload cap.
    pub fn decode(buf: &[u8]) -> (r: Result<Option<(Header, Body)>, Error>)
        ensures
            buf@.len() < 16 ==> (r matches Ok(o) && o is None),
            buf@.len() >= 16 ==> {
                let h = Header::spec_parse(buf@);
                &&& h.len > 4096 ==> (r matches Err(e) && e is EINVAL)
                &&& (h.len <= 4096 && buf@.len() < 16 + h.len) ==> (r matches Ok(o) && o is None)
                &&& (h.len <= 4096 && buf@.len() >= 16 + h.len) ==> (r matches Ok(o) && o matches Some(
                    (rh, rb),
                ) && rh == h && rb@ == split_fields(buf@.subrange(16, 16 + h.len as int)))
            },
    {
        if buf.len() < 16 {
            return Ok(None);
        }
        let header = match Header::parse(buf) {
            Some(h) => h,
            None => {
                return Ok(None);
            }
        };
        if header.len > 4096 {
            return Err(Error::EINVAL(String::from_str("frame body over the payload cap")));
        }
        let body_len = header.len as usize;
        if buf.len() < 16 + body_len {
            return Ok(None);
        }
        let body_bytes = slice_subrange(buf, 16, 16 + body_len);
        let body = match Body::parse(&header, body_bytes) {
            Some(b) => b,
            None => {
                return Err(Error::EINVAL(String::from_str("frame body length mismatch")));
            }
        };
        Ok(Some((header, body)))
    }

    /// Encodes one frame: the header's 16 bytes, then the body bytes.
    pub fn encode(header: &Header, body: &Body) -> (r: Vec<u8>)
        requires
            join_fields(body@).len() + 16 <= usize::MAX,
        ensures
            r@ == header.spec_bytes() + join_fields(body@),
    {
        let mut r = header.to_vec();
        let mut b = body.to_vec();
        let mut j: usize = 0;
        let ghost r0 = r@;
        while j < b.len()
            invariant
                j <= b@.len(),
                r@ == r0 + b@.take(j as int),
            decreases b@.len() - j,
        {
            r.push(b[j]);
            proof {
                assert(r@ =~= r0 + b@.take(j + 1));
            }
            j = j + 1;
        }
        proof {
            assert(b@.take(j as int) =~= b@);
        }
        r
    }
}

/// Decoding an encoded frame gives back the header and the body's
/// non-empty fields: the round trip drops empty fields and nothing
/// else. Fields on the wire cannot carry NUL bytes.
pub proof fn lemma_codec_round_trip(h: Header, fields: Seq<Seq<u8>>)
    requires
        h.len as int == join_fields(fields).len(),
        h.len <= 4096,
        forall|i: int| 0 <= i < fields.len() ==> nul_free(#[trigger] fields[i]),
    ensures
        ({
            let frame = h.spec_bytes() + join_fields(fields);
            &&& frame.len() >= 16
            &&& Header::spec_parse(frame) == h
            &&& split_fields(frame.subrange(16, 16 + h.len as int)) == normalize(fields)
        }),
{
    let frame = h.spec_bytes() + join_fields(fields);
    h.lemma_round_trip();
    assert(frame.subrange(0, 4) =~= h.spec_bytes().subrange(0, 4));
    assert(frame.subrange(4, 8) =~= h.spec_bytes().subrange(4, 8));
    assert(frame.subrange(8, 12) =~= h.spec_bytes().subrange(8, 12));
    assert(frame.subrange(12, 16) =~= h.spec_bytes().subrange(12, 16));
    assert(Header::spec_parse(frame) == Header::spec_parse(h.spec_bytes()));
    assert(frame.subrange(16, 16 + h.len as int) =~= join_fields(fields));
    lemma_split_join(fields);
}

/// Splitting a joined field list drops exactly the empty fields.
pub proof fn lemma_split_join(fields: Seq<Seq<u8>>)
    requires
        forall|i: int| 0 <= i < fields.len() ==> nul_free(#[trigger] fields[i]),
    ensures
        split_fields(join_fields(fields)) == normalize(fields),
    decreases fields.len(),
{
    reveal(Seq::filter);
    if fields.len() == 0 {
        assert(normalize(fields) =~= Seq::<Seq<u8>>::empty());
    } else {
        let f = fields[0];
        let rest = fields.drop_first();
        lemma_split_join(rest);
        lemma_filter_drop_first(fields);
        if f.len() == 0 {
            assert(join_fields(fields) =~= join_fields(rest));
        } else {
            assert(join_fields(fields) =~= f + seq![0u8] + join_fields(rest));
            lemma_split_step(f, join_fields(rest));
        }
    }
}

proof fn lemma_filter_drop_first(fields: Seq<Seq<u8>>)
    requires
        fields.len() > 0,
    ensures
        normalize(fields) == (if fields[0].len() == 0 {
            normalize(fields.drop_first())
        } else {
            seq![fields[0]] + normalize(fields.drop_first())
        }),
    decreases fields.len(),
{
    reveal(Seq::filter);
    if fields.len() == 1 {
        assert(fields.drop_first() =~= Seq::<Seq<u8>>::empty());
        assert(fields.drop_last() =~= Seq::<Seq<u8>>::empty());
        assert(fields.last() == fields[0]);
        if fields[0].len() != 0 {
            assert(normalize(fields) == normalize(fields.drop_last()).push(fields[0]));
            assert(normalize(fields) =~= seq![fields[0]] + normalize(fields.drop_first()));
        } else {
            assert(normalize(fields) == normalize(fields.drop_last()));
        }
    } else {
        lemma_filter_drop_first(fields.drop_last());
        assert(fields.drop_last().drop_first() =~= fields.drop_first().drop_last());
        assert(fields.drop_last()[0] == fields[0]);
        let g = fields.last();
        assert(fields.drop_first().drop_last().push(g) =~= fields.drop_first());
        if g.len() != 0 {
            assert(normalize(fields) == normalize(fields.drop_last()).push(g));
            assert(normalize(fields.drop_first()) == normalize(
                fields.drop_first().drop_last(),
            ).push(g));
            if fields[0].len() != 0 {
                assert(seq![fields[0]] + normalize(fields.drop_first().drop_last()).push(g) =~= (
                seq![fields[0]] + normalize(fields.drop_first().drop_last())).push(g));
            }
        } else {
            assert(normalize(fields) == normalize(fields.drop_last()));
            assert(normalize(fields.drop_first()) == normalize(fields.drop_first().drop_last()));
        }
    }
}

} // verus!
