//! The message layer: parses a decoded frame into a typed request,
//! dispatches it into the store, transaction, and watch subsystems,
//! and encodes the reply — one tagged variant per message type and a
//! single `process` that pattern-matches over them. Watch events that
//! the request caused come back beside the reply, to be queued after
//! it on the owning connections.

use vstd::prelude::*;
use vstd::string::StrSliceExecFns;
use vstd::string::StringExecFns;
use vstd::string::StringSliceAdditionalSpecFns;
use vstd::utf8::{decode_utf8, encode_utf8, valid_utf8, is_ascii_chars_encode_utf8};
use crate::connection::ConnId;
use crate::error::{lemma_error_name_short, Error};
use crate::path::{domain_prefix, get_domain_path, path_str_ok, path_wf, spec_parse_path, Path,
    PathView};
use crate::store::{
    applied_of, eff_lookup, find_node, rm_ok, rm_updated, spec_perms_ok, write_ok, write_updated,
    ChangeView, Perm, Permission, Value, PERM_BOTH, PERM_NONE, PERM_READ, PERM_WRITE,
};
use crate::transaction::{find_tx, Transaction, ROOT_TRANSACTION};
use crate::system::System;
use crate::text::{
    all_digits, bytes_string, chars_string, dec_chars, dec_value, fmt_u32, parse_u32, str_chars,
    str_eq,
};
use crate::watch::{spec_any_match, WPath, WPathView, Watch, WatchView};
use crate::wire;
use crate::wire::{join_fields, Body, Header, ReqId, TxId};

verus! {

/// What every reply echoes back: the connection a request came in
/// on, its request id, and the transaction it addressed.
#[derive(Clone, Copy, Debug)]
pub struct Metadata {
    pub conn: ConnId,
    pub req_id: ReqId,
    pub tx_id: TxId,
}

/// A decoded request, one variant per message type the service
/// implements; anything else parses to `ErrorMsg`.
pub enum Request {
    Directory(Metadata, Path),
    Read(Metadata, Path),
    GetPerms(Metadata, Path),
    Mkdir(Metadata, Path),
    Remove(Metadata, Path),
    Write(Metadata, Path, Value),
    SetPerms(Metadata, Path, Vec<Permission>),
    Watch(Metadata, WPath, String),
    Unwatch(Metadata, WPath, String),
    TransactionStart(Metadata),
    TransactionEnd(Metadata, bool),
    Release(Metadata),
    GetDomainPath(Metadata),
    Resume(Metadata),
    Restrict(Metadata),
    IsDomainIntroduced(Metadata),
    ErrorMsg(Metadata, Error),
}

/// The bookkeeping a request carries.
pub open spec fn md_of(r: Request) -> Metadata {
    match r {
        Request::Directory(md, _) => md,
        Request::Read(md, _) => md,
        Request::GetPerms(md, _) => md,
        Request::Mkdir(md, _) => md,
        Request::Remove(md, _) => md,
        Request::Write(md, _, _) => md,
        Request::SetPerms(md, _, _) => md,
        Request::Watch(md, _, _) => md,
        Request::Unwatch(md, _, _) => md,
        Request::TransactionStart(md) => md,
        Request::TransactionEnd(md, _) => md,
        Request::Release(md) => md,
        Request::GetDomainPath(md) => md,
        Request::Resume(md) => md,
        Request::Restrict(md) => md,
        Request::IsDomainIntroduced(md) => md,
        Request::ErrorMsg(md, _) => md,
    }
}

/// Every path a request carries is well-formed, and a permission
/// list never comes empty.
pub open spec fn req_wf(r: Request) -> bool {
    match r {
        Request::Directory(_, p) => path_wf(p@),
        Request::Read(_, p) => path_wf(p@),
        Request::GetPerms(_, p) => path_wf(p@),
        Request::Mkdir(_, p) => path_wf(p@),
        Request::Remove(_, p) => path_wf(p@),
        Request::Write(_, p, _) => path_wf(p@),
        Request::SetPerms(_, p, perms) => path_wf(p@) && perms@.len() > 0,
        _ => true,
    }
}

/// Every field of a frame decodes as text.
pub open spec fn fields_text_ok(fields: Seq<Seq<u8>>) -> bool {
    forall|i: int| 0 <= i < fields.len() ==> valid_utf8(#[trigger] fields[i])
}

/// A field that parses as a path string.
pub open spec fn path_field_ok(f: Seq<u8>) -> bool {
    path_str_ok(decode_utf8(f), f.len() as int)
}

/// The path a field parses to, for `dom_id`.
pub open spec fn parsed_path(dom_id: u32, f: Seq<u8>) -> PathView {
    spec_parse_path(dom_id, decode_utf8(f))
}

/// A field that parses as a watch pattern: a sentinel name, or a
/// path string.
pub open spec fn wpath_field_ok(f: Seq<u8>) -> bool {
    ||| decode_utf8(f) == "@introduceDomain"@
    ||| decode_utf8(f) == "@releaseDomain"@
    ||| path_field_ok(f)
}

/// The watch pattern a field parses to, for `dom_id`.
pub open spec fn parsed_wpath(dom_id: u32, f: Seq<u8>) -> WPathView {
    if decode_utf8(f) == "@introduceDomain"@ {
        WPathView::IntroduceDomain
    } else if decode_utf8(f) == "@releaseDomain"@ {
        WPathView::ReleaseDomain
    } else {
        WPathView::Normal(parsed_path(dom_id, f))
    }
}

/// The mode a permission letter stands for; anything unknown reads
/// as no access.
pub open spec fn mode_of(c: char) -> Perm {
    if c == 'r' {
        PERM_READ
    } else if c == 'w' {
        PERM_WRITE
    } else if c == 'b' {
        PERM_BOTH
    } else {
        PERM_NONE
    }
}

/// A field that parses as one permission entry: a mode letter, then
/// a decimal domain id.
pub open spec fn perm_entry_ok(f: Seq<u8>) -> bool {
    &&& decode_utf8(f).len() > 1
    &&& all_digits(decode_utf8(f).skip(1))
    &&& dec_value(decode_utf8(f).skip(1)) <= u32::MAX
}

/// The permission entry a field parses to.
pub open spec fn parsed_perm(f: Seq<u8>) -> Permission {
    Permission {
        id: dec_value(decode_utf8(f).skip(1)) as u32,
        perm: mode_of(decode_utf8(f)[0]),
    }
}

/// A request that answers a malformed frame: an `EINVAL` error
/// message carrying the frame's own ids.
pub open spec fn is_invalid_reply(r: Request, md: Metadata) -> bool {
    r matches Request::ErrorMsg(m, e) && m == md && e is EINVAL
}

/// The dispatch table: which typed request a frame parses to, and
/// that exactly the frames outside the request grammar become an
/// `EINVAL` error message.
pub open spec fn spec_parse(conn: ConnId, header: Header, fields: Seq<Seq<u8>>, r: Request) -> bool {
    let md = Metadata { conn, req_id: header.req_id, tx_id: header.tx_id };
    let k = header.msg_type;
    let dom = conn.dom_id;
    if !fields_text_ok(fields) {
        is_invalid_reply(r, md)
    } else if k == wire::XS_DIRECTORY || k == wire::XS_READ || k == wire::XS_GET_PERMS || k
        == wire::XS_MKDIR || k == wire::XS_RM {
        if fields.len() == 1 && path_field_ok(fields[0]) {
            match r {
                Request::Directory(m, p) => k == wire::XS_DIRECTORY && m == md && p@ == parsed_path(
                    dom,
                    fields[0],
                ),
                Request::Read(m, p) => k == wire::XS_READ && m == md && p@ == parsed_path(
                    dom,
                    fields[0],
                ),
                Request::GetPerms(m, p) => k == wire::XS_GET_PERMS && m == md && p@ == parsed_path(
                    dom,
                    fields[0],
                ),
                Request::Mkdir(m, p) => k == wire::XS_MKDIR && m == md && p@ == parsed_path(
                    dom,
                    fields[0],
                ),
                Request::Remove(m, p) => k == wire::XS_RM && m == md && p@ == parsed_path(
                    dom,
                    fields[0],
                ),
                _ => false,
            }
        } else {
            is_invalid_reply(r, md)
        }
    } else if k == wire::XS_WRITE {
        if fields.len() >= 2 && path_field_ok(fields[0]) {
            r matches Request::Write(m, p, v) && m == md && p@ == parsed_path(dom, fields[0]) && v@
                == decode_utf8(fields[1])
        } else {
            is_invalid_reply(r, md)
        }
    } else if k == wire::XS_SET_PERMS {
        if fields.len() >= 2 && path_field_ok(fields[0]) && (forall|j: int|
            1 <= j < fields.len() ==> perm_entry_ok(#[trigger] fields[j])) {
            r matches Request::SetPerms(m, p, ps) && m == md && p@ == parsed_path(dom, fields[0])
                && ps@.len() == fields.len() - 1 && (forall|j: int|
                0 <= j < ps@.len() ==> #[trigger] ps@[j] == parsed_perm(fields[j + 1]))
        } else {
            is_invalid_reply(r, md)
        }
    } else if k == wire::XS_WATCH || k == wire::XS_UNWATCH {
        if fields.len() == 2 && wpath_field_ok(fields[0]) {
            match r {
                Request::Watch(m, w, t) => k == wire::XS_WATCH && m == md && w@ == parsed_wpath(
                    dom,
                    fields[0],
                ) && t@ == decode_utf8(fields[1]),
                Request::Unwatch(m, w, t) => k == wire::XS_UNWATCH && m == md && w@ == parsed_wpath(
                    dom,
                    fields[0],
                ) && t@ == decode_utf8(fields[1]),
                _ => false,
            }
        } else {
            is_invalid_reply(r, md)
        }
    } else if k == wire::XS_TRANSACTION_START {
        r matches Request::TransactionStart(m) && m == md
    } else if k == wire::XS_TRANSACTION_END {
        if fields.len() == 1 {
            r matches Request::TransactionEnd(m, ok) && m == md && ok == (decode_utf8(fields[0])
                == "T"@)
        } else {
            is_invalid_reply(r, md)
        }
    } else if k == wire::XS_RELEASE {
        r matches Request::Release(m) && m == md
    } else if k == wire::XS_GET_DOMAIN_PATH {
        r matches Request::GetDomainPath(m) && m == md
    } else if k == wire::XS_RESUME {
        r matches Request::Resume(m) && m == md
    } else if k == wire::XS_RESTRICT {
        r matches Request::Restrict(m) && m == md
    } else if k == wire::XS_IS_DOMAIN_INTRODUCED {
        r matches Request::IsDomainIntroduced(m) && m == md
    } else {
        is_invalid_reply(r, md)
    }
}

/// A reply frame, and the watch events the request caused.
pub struct Response {
    pub header: Header,
    pub body: Body,
    pub watch_events: Vec<Watch>,
}

/// Decodes each body field as text; a field that is not UTF-8 fails
/// the whole request with `EINVAL`.
fn to_strings(body: &Body) -> (r: Result<Vec<String>, Error>)
    ensures
        r is Ok <==> fields_text_ok(body@),
        r matches Ok(v) ==> (v@.len() == body@.len() && (forall|i: int|
            0 <= i < v@.len() ==> (#[trigger] v@[i])@ == decode_utf8(body@[i])) && (forall|i: int|
            0 <= i < body@.len() ==> (#[trigger] body@[i]).len() <= usize::MAX)),
        r matches Err(e) ==> e is EINVAL,
{
    broadcast use vstd::utf8::encode_utf8_decode_utf8;

    let mut out: Vec<String> = Vec::new();
    let mut i: usize = 0;
    let n = body.0.len();
    while i < n
        invariant
            i <= n,
            n == body.0@.len(),
            n == body@.len(),
            out@.len() == i,
            forall|j: int| 0 <= j < n ==> #[trigger] body@[j] == body.0@[j]@,
            forall|j: int| 0 <= j < i ==> (#[trigger] out@[j])@ == decode_utf8(body@[j]),
            forall|j: int| 0 <= j < i ==> valid_utf8(#[trigger] body@[j]),
            forall|j: int| 0 <= j < i ==> (#[trigger] body@[j]).len() <= usize::MAX,
        decreases n - i,
    {
        let field = field_at(body, i);
        let flen = field.len();
        match bytes_string(field) {
            Some(s) => {
                proof {
                    assert(encode_utf8(s@) == body@[i as int]);
                    vstd::utf8::encode_utf8_decode_utf8(s@);
                }
                out.push(s);
            }
            None => {
                proof {
                    assert(!valid_utf8(body@[i as int]));
                }
                return Err(Error::EINVAL(String::from_str("a field is not valid text")));
            }
        }
        i = i + 1;
    }
    Ok(out)
}

/// The `i`th field of a body.
fn field_at(body: &Body, i: usize) -> (r: &Vec<u8>)
    requires
        i < body.0@.len(),
    ensures
        r@ == body.0@[i as int]@,
{
    &body.0[i]
}

/// One permission entry from its wire form: a mode letter, then the
/// domain id in decimal.
fn parse_perm(s: &String) -> (r: Option<Permission>)
    ensures
        r is Some <==> (s@.len() > 1 && all_digits(s@.skip(1)) && dec_value(s@.skip(1))
            <= u32::MAX),
        r matches Some(p) ==> p == (Permission {
            id: dec_value(s@.skip(1)) as u32,
            perm: mode_of(s@[0]),
        }),
{
    let cs = str_chars(s.as_str());
    if cs.len() == 0 {
        return None;
    }
    let mode = cs[0];
    let perm: u32 = if mode == 'r' {
        PERM_READ
    } else if mode == 'w' {
        PERM_WRITE
    } else if mode == 'b' {
        PERM_BOTH
    } else {
        PERM_NONE
    };
    match parse_u32(&cs, 1) {
        Some(id) => Some(Permission { id, perm }),
        None => None,
    }
}

/// Parses a decoded frame into a typed request for `conn`, per the
/// dispatch table `spec_parse`. A frame outside the request grammar
/// parses to `ErrorMsg`, answered as a single error reply; parsing
/// never fails harder than that.
pub fn parse(conn: ConnId, header: &Header, body: Body) -> (r: Request)
    ensures
        md_of(r) == (Metadata { conn, req_id: header.req_id, tx_id: header.tx_id }),
        req_wf(r),
        spec_parse(conn, *header, body@, r),
{
    broadcast use vstd::utf8::encode_utf8_decode_utf8;

    let ghost fields = body@;
    let md = Metadata { conn, req_id: header.req_id, tx_id: header.tx_id };
    let mut strs = match to_strings(&body) {
        Ok(v) => v,
        Err(e) => {
            return Request::ErrorMsg(md, e);
        }
    };
    proof {
        // each decoded string re-encodes to its field, so the path
        // grammar over characters matches the field's byte length
        assert forall|i: int| 0 <= i < fields.len() implies encode_utf8(
            decode_utf8(#[trigger] fields[i]),
        ) == fields[i] by {
            vstd::utf8::decode_utf8_encode_utf8(fields[i]);
        }
    }
    let kind = header.msg_type;
    if kind == wire::XS_DIRECTORY || kind == wire::XS_READ || kind == wire::XS_GET_PERMS || kind
        == wire::XS_MKDIR || kind == wire::XS_RM {
        if strs.len() != 1 {
            return Request::ErrorMsg(
                md,
                Error::EINVAL(String::from_str("expected exactly one path")),
            );
        }
        proof {
            assert(strs@[0]@ == decode_utf8(fields[0]));
            assert(encode_utf8(strs@[0]@) == fields[0]);
        }
        let path = match Path::try_from(conn.dom_id, strs[0].as_str()) {
            Ok(p) => p,
            Err(e) => {
                proof {
                    assert(!path_field_ok(fields[0]));
                }
                return Request::ErrorMsg(md, e);
            }
        };
        proof {
            assert(path_field_ok(fields[0]));
            assert(path@ == parsed_path(conn.dom_id, fields[0]));
        }
        if kind == wire::XS_DIRECTORY {
            Request::Directory(md, path)
        } else if kind == wire::XS_READ {
            Request::Read(md, path)
        } else if kind == wire::XS_GET_PERMS {
            Request::GetPerms(md, path)
        } else if kind == wire::XS_MKDIR {
            Request::Mkdir(md, path)
        } else {
            Request::Remove(md, path)
        }
    } else if kind == wire::XS_WRITE {
        if strs.len() < 2 {
            return Request::ErrorMsg(
                md,
                Error::EINVAL(String::from_str("expected a path and a value")),
            );
        }
        proof {
            assert(strs@[0]@ == decode_utf8(fields[0]));
            assert(encode_utf8(strs@[0]@) == fields[0]);
        }
        let path = match Path::try_from(conn.dom_id, strs[0].as_str()) {
            Ok(p) => p,
            Err(e) => {
                proof {
                    assert(!path_field_ok(fields[0]));
                }
                return Request::ErrorMsg(md, e);
            }
        };
        let value = strs.remove(1);
        proof {
            assert(path_field_ok(fields[0]));
            assert(value@ == decode_utf8(fields[1]));
        }
        Request::Write(md, path, value)
    } else if kind == wire::XS_SET_PERMS {
        if strs.len() < 2 {
            return Request::ErrorMsg(
                md,
                Error::EINVAL(String::from_str("expected a path and permissions")),
            );
        }
        proof {
            assert(strs@[0]@ == decode_utf8(fields[0]));
            assert(encode_utf8(strs@[0]@) == fields[0]);
        }
        let path = match Path::try_from(conn.dom_id, strs[0].as_str()) {
            Ok(p) => p,
            Err(e) => {
                proof {
                    assert(!path_field_ok(fields[0]));
                }
                return Request::ErrorMsg(md, e);
            }
        };
        let mut perms: Vec<Permission> = Vec::new();
        let mut i: usize = 1;
        let n = strs.len();
        while i < n
            invariant
                1 <= i <= n,
                n == strs@.len(),
                n == fields.len(),
                perms@.len() == i - 1,
                md == (Metadata { conn, req_id: header.req_id, tx_id: header.tx_id }),
                header.msg_type == wire::XS_SET_PERMS,
                fields == body@,
                fields_text_ok(fields),
                forall|j: int| 0 <= j < n ==> (#[trigger] strs@[j])@ == decode_utf8(fields[j]),
                forall|j: int| 1 <= j < i ==> perm_entry_ok(#[trigger] fields[j]),
                forall|j: int| 0 <= j < i - 1 ==> #[trigger] perms@[j] == parsed_perm(fields[j + 1]),
            decreases n - i,
        {
            match parse_perm(&strs[i]) {
                Some(p) => {
                    proof {
                        assert(perm_entry_ok(fields[i as int]));
                        assert(p == parsed_perm(fields[i as int]));
                    }
                    perms.push(p);
                }
                None => {
                    proof {
                        assert(!perm_entry_ok(fields[i as int]));
                    }
                    return Request::ErrorMsg(
                        md,
                        Error::EINVAL(String::from_str("a permission entry is malformed")),
                    );
                }
            }
            i = i + 1;
        }
        proof {
            assert(path_field_ok(fields[0]));
        }
        Request::SetPerms(md, path, perms)
    } else if kind == wire::XS_WATCH || kind == wire::XS_UNWATCH {
        if strs.len() != 2 {
            return Request::ErrorMsg(
                md,
                Error::EINVAL(String::from_str("expected a path and a token")),
            );
        }
        proof {
            assert(strs@[0]@ == decode_utf8(fields[0]));
            assert(encode_utf8(strs@[0]@) == fields[0]);
        }
        let node = match WPath::try_from(conn.dom_id, strs[0].as_str()) {
            Ok(w) => w,
            Err(e) => {
                proof {
                    assert(!wpath_field_ok(fields[0]));
                }
                return Request::ErrorMsg(md, e);
            }
        };
        let token = strs.remove(1);
        proof {
            assert(wpath_field_ok(fields[0]));
            assert(node@ == parsed_wpath(conn.dom_id, fields[0]));
            assert(token@ == decode_utf8(fields[1]));
        }
        if kind == wire::XS_WATCH {
            Request::Watch(md, node, token)
        } else {
            Request::Unwatch(md, node, token)
        }
    } else if kind == wire::XS_TRANSACTION_START {
        Request::TransactionStart(md)
    } else if kind == wire::XS_TRANSACTION_END {
        if strs.len() != 1 {
            return Request::ErrorMsg(
                md,
                Error::EINVAL(String::from_str("expected one outcome flag")),
            );
        }
        proof {
            assert(strs@[0]@ == decode_utf8(fields[0]));
        }
        let success = str_eq(strs[0].as_str(), "T");
        Request::TransactionEnd(md, success)
    } else if kind == wire::XS_RELEASE {
        Request::Release(md)
    } else if kind == wire::XS_GET_DOMAIN_PATH {
        Request::GetDomainPath(md)
    } else if kind == wire::XS_RESUME {
        Request::Resume(md)
    } else if kind == wire::XS_RESTRICT {
        Request::Restrict(md)
    } else if kind == wire::XS_IS_DOMAIN_INTRODUCED {
        Request::IsDomainIntroduced(md)
    } else {
        Request::ErrorMsg(md, Error::EINVAL(String::from_str("unknown message type")))
    }
}

/// A reply in the shape the protocol gives it: the request's ids
/// echoed, `len` equal to the bytes the body emits, the given fields
/// as the body, and the given watch events beside it — unless the
/// body would exceed the payload cap, in which case the reply is an
/// `E2BIG` error instead.
pub open spec fn reply_shape(
    r: Response,
    msg_type: u32,
    md: Metadata,
    fields: Seq<Seq<u8>>,
    events: Seq<WatchView>,
) -> bool {
    if join_fields(fields).len() <= 4096 {
        &&& r.header.msg_type == msg_type
        &&& r.header.req_id == md.req_id
        &&& r.header.tx_id == md.tx_id
        &&& r.header.len as int == join_fields(fields).len()
        &&& r.body@ == fields
        &&& r.watch_events.deep_view() == events
    } else {
        error_shape(r, md, "E2BIG"@)
    }
}

/// An error reply: `XS_ERROR` with the request's ids, the error's
/// name as the one body field, `len` covering it and its separator,
/// and no events.
pub open spec fn error_shape(r: Response, md: Metadata, name: Seq<char>) -> bool {
    &&& r.header.msg_type == wire::XS_ERROR
    &&& r.header.req_id == md.req_id
    &&& r.header.tx_id == md.tx_id
    &&& r.body@ == seq![encode_utf8(name)]
    &&& r.header.len as int == join_fields(r.body@).len()
    &&& r.header.len as int == encode_utf8(name).len() + 1
    &&& r.watch_events@.len() == 0
}

/// A reply whose body was built from `fields`; a body over the
/// payload cap is answered as `E2BIG` instead.
fn reply(msg_type: u32, md: Metadata, fields: Vec<Vec<u8>>, events: Vec<Watch>) -> (r: Response)
    ensures
        reply_shape(r, msg_type, md, fields.deep_view(), events.deep_view()),
{
    let body = Body(fields);
    let bytes = body.to_vec();
    if bytes.len() > 4096 {
        return error_reply(md, &Error::E2BIG(String::from_str("reply body over the payload cap")));
    }
    let header = Header {
        msg_type,
        req_id: md.req_id,
        tx_id: md.tx_id,
        len: bytes.len() as u32,
    };
    Response { header, body, watch_events: events }
}

/// An empty acknowledgement.
fn ack(msg_type: u32, md: Metadata, events: Vec<Watch>) -> (r: Response)
    ensures
        reply_shape(r, msg_type, md, Seq::<Seq<u8>>::empty(), events.deep_view()),
{
    let fields: Vec<Vec<u8>> = Vec::new();
    proof {
        assert(fields.deep_view() =~= Seq::<Seq<u8>>::empty());
    }
    reply(msg_type, md, fields, events)
}

/// The single error reply: the error's name as one field.
pub fn error_reply(md: Metadata, e: &Error) -> (r: Response)
    ensures
        error_shape(r, md, e.spec_name()),
{
    proof {
        lemma_error_name_short(*e);
        is_ascii_chars_encode_utf8(e.spec_name());
    }
    let name = e.name();
    let bytes = name.as_bytes_vec();
    let blen = bytes.len();
    let mut fields: Vec<Vec<u8>> = Vec::new();
    let ghost bv = bytes@;
    proof {
        assert(bv == encode_utf8(e.spec_name()));
        assert(bv.len() < 16);
    }
    let body_len: u32 = if blen < 4096 {
        fields.push(bytes);
        (blen + 1) as u32
    } else {
        0
    };
    let body = Body(fields);
    proof {
        assert(body@ =~~= seq![encode_utf8(e.spec_name())]);
        assert(seq![bv].drop_first() =~= Seq::<Seq<u8>>::empty());
        assert(join_fields(body@) =~= (bv + seq![0u8]) + join_fields(Seq::<Seq<u8>>::empty()));
        assert(join_fields(body@) =~= bv + seq![0u8]);
    }
    let header = Header {
        msg_type: wire::XS_ERROR,
        req_id: md.req_id,
        tx_id: md.tx_id,
        len: body_len,
    };
    let r = Response { header, body, watch_events: Vec::new() };
    r
}

/// What one dispatched request did, per variant: the reply's type
/// and body, the state change — applied or stashed, as `System`'s
/// contracts put it — and, on failure, the single error reply named
/// after the cause.
pub open spec fn spec_reply(pre: System, post: System, req: Request, r: Response) -> bool {
    match req {
        Request::Directory(md, p) => {
            let cvo = pre.view_changes(md.conn, md.tx_id);
            if cvo is Some && eff_lookup(pre.store.nodes(), cvo->Some_0, p@) is Some
                && spec_perms_ok(
                md.conn.dom_id,
                eff_lookup(pre.store.nodes(), cvo->Some_0, p@)->Some_0.permissions,
                PERM_READ,
            ) {
                let n = eff_lookup(pre.store.nodes(), cvo->Some_0, p@)->Some_0;
                &&& post == pre
                &&& reply_shape(
                    r,
                    wire::XS_DIRECTORY,
                    md,
                    n.children.map_values(|c: Seq<char>| encode_utf8(c)),
                    Seq::<WatchView>::empty(),
                )
            } else {
                &&& post == pre
                &&& error_shape(
                    r,
                    md,
                    (if cvo is None || eff_lookup(pre.store.nodes(), cvo->Some_0, p@) is None {
                        "ENOENT"@
                    } else {
                        "EACCES"@
                    }),
                )
            }
        },
        Request::Read(md, p) => {
            let cvo = pre.view_changes(md.conn, md.tx_id);
            if cvo is Some && eff_lookup(pre.store.nodes(), cvo->Some_0, p@) is Some
                && spec_perms_ok(
                md.conn.dom_id,
                eff_lookup(pre.store.nodes(), cvo->Some_0, p@)->Some_0.permissions,
                PERM_READ,
            ) {
                let n = eff_lookup(pre.store.nodes(), cvo->Some_0, p@)->Some_0;
                &&& post == pre
                &&& reply_shape(
                    r,
                    wire::XS_READ,
                    md,
                    seq![encode_utf8(n.value)],
                    Seq::<WatchView>::empty(),
                )
            } else {
                &&& post == pre
                &&& error_shape(
                    r,
                    md,
                    (if cvo is None || eff_lookup(pre.store.nodes(), cvo->Some_0, p@) is None {
                        "ENOENT"@
                    } else {
                        "EACCES"@
                    }),
                )
            }
        },
        Request::GetPerms(md, p) => {
            let cvo = pre.view_changes(md.conn, md.tx_id);
            if cvo is Some && eff_lookup(pre.store.nodes(), cvo->Some_0, p@) is Some
                && spec_perms_ok(
                md.conn.dom_id,
                eff_lookup(pre.store.nodes(), cvo->Some_0, p@)->Some_0.permissions,
                PERM_READ,
            ) {
                let n = eff_lookup(pre.store.nodes(), cvo->Some_0, p@)->Some_0;
                &&& post == pre
                &&& reply_shape(
                    r,
                    wire::XS_GET_PERMS,
                    md,
                    n.permissions.map_values(|pm: Permission| perm_wire(pm)),
                    Seq::<WatchView>::empty(),
                )
            } else {
                &&& post == pre
                &&& error_shape(
                    r,
                    md,
                    (if cvo is None || eff_lookup(pre.store.nodes(), cvo->Some_0, p@) is None {
                        "ENOENT"@
                    } else {
                        "EACCES"@
                    }),
                )
            }
        },
        Request::Write(md, p, v) => {
            let cvo = pre.view_changes(md.conn, md.tx_id);
            if cvo is Some && write_ok(pre.store.nodes(), cvo->Some_0, md.conn.dom_id, p@) {
                let cv = cvo->Some_0;
                &&& (exists|c2: Seq<ChangeView>|
                    #[trigger] write_updated(pre.store.nodes(), cv, c2, md.conn.dom_id, p@, v@)
                        && System::settled(
                        pre,
                        post,
                        md.conn,
                        md.tx_id,
                        r.watch_events.deep_view(),
                        c2,
                    ))
                &&& reply_shape(
                    r,
                    wire::XS_WRITE,
                    md,
                    Seq::<Seq<u8>>::empty(),
                    r.watch_events.deep_view(),
                )
            } else {
                &&& post == pre
                &&& error_shape(
                    r,
                    md,
                    (if cvo is None {
                        "ENOENT"@
                    } else {
                        "EACCES"@
                    }),
                )
            }
        },
        Request::Mkdir(md, p) => {
            let cvo = pre.view_changes(md.conn, md.tx_id);
            if cvo is Some && write_ok(pre.store.nodes(), cvo->Some_0, md.conn.dom_id, p@) {
                let cv = cvo->Some_0;
                &&& (exists|c2: Seq<ChangeView>|
                    #[trigger] System::settled(
                        pre,
                        post,
                        md.conn,
                        md.tx_id,
                        r.watch_events.deep_view(),
                        c2,
                    ) && (match eff_lookup(pre.store.nodes(), cv, p@) {
                        Some(_) => c2 == cv,
                        None => write_updated(
                            pre.store.nodes(),
                            cv,
                            c2,
                            md.conn.dom_id,
                            p@,
                            Seq::<char>::empty(),
                        ),
                    }))
                &&& reply_shape(
                    r,
                    wire::XS_MKDIR,
                    md,
                    Seq::<Seq<u8>>::empty(),
                    r.watch_events.deep_view(),
                )
            } else {
                &&& post == pre
                &&& error_shape(
                    r,
                    md,
                    (if cvo is None {
                        "ENOENT"@
                    } else {
                        "EACCES"@
                    }),
                )
            }
        },
        Request::Remove(md, p) => {
            let cvo = pre.view_changes(md.conn, md.tx_id);
            if cvo is Some && rm_ok(pre.store.nodes(), cvo->Some_0, md.conn.dom_id, p@) {
                let cv = cvo->Some_0;
                &&& (exists|c2: Seq<ChangeView>|
                    #[trigger] rm_updated(pre.store.nodes(), cv, c2, p@) && System::settled(
                        pre,
                        post,
                        md.conn,
                        md.tx_id,
                        r.watch_events.deep_view(),
                        c2,
                    ))
                &&& reply_shape(
                    r,
                    wire::XS_RM,
                    md,
                    Seq::<Seq<u8>>::empty(),
                    r.watch_events.deep_view(),
                )
            } else {
                &&& post == pre
                &&& error_shape(
                    r,
                    md,
                    (match cvo {
                        None => "ENOENT"@,
                        Some(cv) => (if p@.len() == 0 {
                            "EINVAL"@
                        } else {
                            match eff_lookup(pre.store.nodes(), cv, p@.drop_last()) {
                                None => "ENOENT"@,
                                Some(par) => {
                                    if !spec_perms_ok(md.conn.dom_id, par.permissions, PERM_WRITE) {
                                        "EACCES"@
                                    } else {
                                        match eff_lookup(pre.store.nodes(), cv, p@) {
                                            None => "ENOENT"@,
                                            Some(_) => "EACCES"@,
                                        }
                                    }
                                },
                            }
                        }),
                    }),
                )
            }
        },
        Request::SetPerms(md, p, ps) => {
            let cvo = pre.view_changes(md.conn, md.tx_id);
            if cvo is Some && eff_lookup(pre.store.nodes(), cvo->Some_0, p@) is Some
                && spec_perms_ok(
                md.conn.dom_id,
                eff_lookup(pre.store.nodes(), cvo->Some_0, p@)->Some_0.permissions,
                PERM_WRITE,
            ) {
                let cv = cvo->Some_0;
                let n = eff_lookup(pre.store.nodes(), cvo->Some_0, p@)->Some_0;
                &&& (exists|c2: Seq<ChangeView>|
                    {
                        &&& (forall|q: PathView|
                            q != p@ ==> #[trigger] eff_lookup(pre.store.nodes(), c2, q)
                                == eff_lookup(pre.store.nodes(), cv, q))
                        &&& eff_lookup(pre.store.nodes(), c2, p@) == Some(
                            crate::store::NodeView { permissions: ps@, ..n },
                        )
                        &&& System::settled(
                            pre,
                            post,
                            md.conn,
                            md.tx_id,
                            r.watch_events.deep_view(),
                            c2,
                        )
                    })
                &&& reply_shape(
                    r,
                    wire::XS_SET_PERMS,
                    md,
                    Seq::<Seq<u8>>::empty(),
                    r.watch_events.deep_view(),
                )
            } else {
                &&& post == pre
                &&& error_shape(
                    r,
                    md,
                    (if cvo is None || eff_lookup(pre.store.nodes(), cvo->Some_0, p@) is None {
                        "ENOENT"@
                    } else {
                        "EACCES"@
                    }),
                )
            }
        },
        Request::Watch(md, node, token) => {
            let trip = WatchView { conn: md.conn, node: node@, token: token@ };
            if !pre.watches.view_list().contains(trip) {
                &&& post.watches.view_list() == pre.watches.view_list().push(trip)
                &&& post.store == pre.store
                &&& post.txns == pre.txns
                &&& reply_shape(
                    r,
                    wire::XS_WATCH,
                    md,
                    Seq::<Seq<u8>>::empty(),
                    Seq::<WatchView>::empty(),
                )
            } else {
                &&& post.watches.view_list() == pre.watches.view_list()
                &&& post.store == pre.store
                &&& post.txns == pre.txns
                &&& error_shape(r, md, "EEXIST"@)
            }
        },
        Request::Unwatch(md, node, token) => {
            let trip = WatchView { conn: md.conn, node: node@, token: token@ };
            if pre.watches.view_list().contains(trip) {
                &&& (forall|w: WatchView|
                    #![trigger post.watches.view_list().contains(w)]
                    post.watches.view_list().contains(w) <==> (pre.watches.view_list().contains(w)
                        && w != trip))
                &&& post.store == pre.store
                &&& post.txns == pre.txns
                &&& reply_shape(
                    r,
                    wire::XS_UNWATCH,
                    md,
                    Seq::<Seq<u8>>::empty(),
                    Seq::<WatchView>::empty(),
                )
            } else {
                &&& post.watches.view_list() == pre.watches.view_list()
                &&& post.store == pre.store
                &&& post.txns == pre.txns
                &&& error_shape(r, md, "ENOENT"@)
            }
        },
        Request::TransactionStart(md) => {
            if pre.txns.txs().len() < 0x1000_0000 {
                &&& post.store == pre.store
                &&& post.watches == pre.watches
                &&& (exists|id: TxId|
                    {
                        &&& id != ROOT_TRANSACTION
                        &&& find_tx(pre.txns.txs(), id) is None
                        &&& ((#[trigger] find_tx(post.txns.txs(), id)) matches Some(t) && t.conn
                            == md.conn && t.changes.parent_gen() == pre.store.gen()
                            && t.changes.changes() == Seq::<ChangeView>::empty())
                        &&& (forall|other: TxId|
                            other != id ==> #[trigger] find_tx(post.txns.txs(), other) == find_tx(
                                pre.txns.txs(),
                                other,
                            ))
                        &&& reply_shape(
                            r,
                            wire::XS_TRANSACTION_START,
                            md,
                            seq![encode_utf8(dec_chars(id as nat))],
                            Seq::<WatchView>::empty(),
                        )
                    })
            } else {
                post == pre && error_shape(r, md, "ENOSPC"@)
            }
        },
        Request::TransactionEnd(md, ok) => {
            if !(md.tx_id != ROOT_TRANSACTION && (find_tx(pre.txns.txs(), md.tx_id) matches Some(
                t,
            ) && t.conn == md.conn)) {
                &&& post.txns.txs() == pre.txns.txs()
                &&& post.store.nodes() == pre.store.nodes()
                &&& post.store.gen() == pre.store.gen()
                &&& post.watches == pre.watches
                &&& error_shape(r, md, "ENOENT"@)
            } else {
                let t = find_tx(pre.txns.txs(), md.tx_id)->Some_0;
                &&& (forall|id: TxId|
                    #![trigger find_tx(post.txns.txs(), id)]
                    find_tx(post.txns.txs(), id) == (if id == md.tx_id {
                        None::<Transaction>
                    } else {
                        find_tx(pre.txns.txs(), id)
                    }))
                &&& post.watches == pre.watches
                &&& (if ok {
                    if t.changes.parent_gen() == pre.store.gen() && pre.store.gen() < u64::MAX {
                        &&& post.store.gen() == pre.store.gen() + 1
                        &&& (forall|q: PathView|
                            #[trigger] find_node(post.store.nodes(), q) == eff_lookup(
                                pre.store.nodes(),
                                t.changes.changes(),
                                q,
                            ))
                        &&& (forall|w: WatchView|
                            #[trigger] r.watch_events.deep_view().contains(w) <==> (
                            pre.watches.view_list().contains(w) && spec_any_match(
                                w,
                                t.changes.changes().map_values(|c: ChangeView| applied_of(c)),
                            )))
                        &&& reply_shape(
                            r,
                            wire::XS_TRANSACTION_END,
                            md,
                            Seq::<Seq<u8>>::empty(),
                            r.watch_events.deep_view(),
                        )
                    } else {
                        &&& post.store.nodes() == pre.store.nodes()
                        &&& post.store.gen() == pre.store.gen()
                        &&& error_shape(r, md, "EAGAIN"@)
                    }
                } else {
                    &&& post.store.nodes() == pre.store.nodes()
                    &&& post.store.gen() == pre.store.gen()
                    &&& reply_shape(
                        r,
                        wire::XS_TRANSACTION_END,
                        md,
                        Seq::<Seq<u8>>::empty(),
                        Seq::<WatchView>::empty(),
                    )
                })
            }
        },
        Request::Release(md) => post == pre && reply_shape(
            r,
            wire::XS_RELEASE,
            md,
            Seq::<Seq<u8>>::empty(),
            Seq::<WatchView>::empty(),
        ),
        Request::GetDomainPath(md) => post == pre && reply_shape(
            r,
            wire::XS_GET_DOMAIN_PATH,
            md,
            seq![encode_utf8(Path::spec_render(domain_prefix(md.conn.dom_id)) + seq!['/'])],
            Seq::<WatchView>::empty(),
        ),
        Request::Resume(md) => post == pre && reply_shape(
            r,
            wire::XS_RESUME,
            md,
            Seq::<Seq<u8>>::empty(),
            Seq::<WatchView>::empty(),
        ),
        Request::Restrict(md) => post == pre && reply_shape(
            r,
            wire::XS_RESTRICT,
            md,
            Seq::<Seq<u8>>::empty(),
            Seq::<WatchView>::empty(),
        ),
        Request::IsDomainIntroduced(md) => post == pre && reply_shape(
            r,
            wire::XS_IS_DOMAIN_INTRODUCED,
            md,
            Seq::<Seq<u8>>::empty(),
            Seq::<WatchView>::empty(),
        ),
        Request::ErrorMsg(md, e) => post == pre && error_shape(r, md, e.spec_name()),
    }
}

/// Dispatches one parsed request into the subsystems and encodes
/// its reply, per `spec_reply`. Failures come back as a single error
/// reply carrying the request's own ids; the aggregate stays
/// well-formed.
pub fn process(sys: &mut System, req: Request) -> (r: Response)
    requires
        old(sys).inv(),
        req_wf(req),
    ensures
        final(sys).inv(),
        r.header.req_id == md_of(req).req_id,
        r.header.tx_id == md_of(req).tx_id,
        spec_reply(*old(sys), *final(sys), req, r),
{
    match req {
        Request::Directory(md, path) => {
            match sys.directory(md.conn, md.tx_id, &path) {
                Ok(children) => {
                    let ghost kids = children.deep_view();
                    let mut fields: Vec<Vec<u8>> = Vec::new();
                    let mut i: usize = 0;
                    let n = children.len();
                    proof {
                        assert(fields.deep_view() =~= kids.take(0).map_values(
                            |c: Seq<char>| encode_utf8(c),
                        ));
                    }
                    while i < n
                        invariant
                            i <= n,
                            n == children@.len(),
                            n == kids.len(),
                            kids == children.deep_view(),
                            fields.deep_view() == kids.take(i as int).map_values(
                                |c: Seq<char>| encode_utf8(c),
                            ),
                        decreases n - i,
                    {
                        let ghost before = fields.deep_view();
                        fields.push(children[i].as_str().as_bytes_vec());
                        proof {
                            assert(children@[i as int].deep_view() == kids[i as int]);
                            assert(fields.deep_view() =~~= before.push(encode_utf8(
                                kids[i as int],
                            )));
                            assert(kids.take(i + 1).map_values(|c: Seq<char>| encode_utf8(c)) =~= 
                                before.push(encode_utf8(kids[i as int])));
                        }
                        i = i + 1;
                    }
                    proof {
                        assert(kids.take(i as int) =~= kids);
                    }
                    let events: Vec<Watch> = Vec::new();
                    proof {
                        assert(events.deep_view() =~= Seq::<WatchView>::empty());
                    }
                    reply(wire::XS_DIRECTORY, md, fields, events)
                }
                Err(e) => error_reply(md, &e),
            }
        }
        Request::Read(md, path) => {
            match sys.read(md.conn, md.tx_id, &path) {
                Ok(value) => {
                    let mut fields: Vec<Vec<u8>> = Vec::new();
                    fields.push(value.as_str().as_bytes_vec());
                    let events: Vec<Watch> = Vec::new();
                    proof {
                        assert(fields.deep_view() =~~= seq![encode_utf8(value@)]);
                        assert(events.deep_view() =~= Seq::<WatchView>::empty());
                    }
                    reply(wire::XS_READ, md, fields, events)
                }
                Err(e) => error_reply(md, &e),
            }
        }
        Request::GetPerms(md, path) => {
            match sys.get_perms(md.conn, md.tx_id, &path) {
                Ok(perms) => {
                    let mut fields: Vec<Vec<u8>> = Vec::new();
                    let mut i: usize = 0;
                    let n = perms.len();
                    proof {
                        assert(fields.deep_view() =~= perms@.take(0).map_values(
                            |pm: Permission| perm_wire(pm),
                        ));
                    }
                    while i < n
                        invariant
                            i <= n,
                            n == perms@.len(),
                            fields.deep_view() == perms@.take(i as int).map_values(
                                |pm: Permission| perm_wire(pm),
                            ),
                        decreases n - i,
                    {
                        let ghost before = fields.deep_view();
                        fields.push(perm_field(&perms[i]));
                        proof {
                            assert(fields.deep_view() =~~= before.push(perm_wire(
                                perms@[i as int],
                            )));
                            assert(perms@.take(i + 1).map_values(|pm: Permission| perm_wire(pm))
                                =~= before.push(perm_wire(perms@[i as int])));
                        }
                        i = i + 1;
                    }
                    proof {
                        assert(perms@.take(i as int) =~= perms@);
                    }
                    let events: Vec<Watch> = Vec::new();
                    proof {
                        assert(events.deep_view() =~= Seq::<WatchView>::empty());
                    }
                    reply(wire::XS_GET_PERMS, md, fields, events)
                }
                Err(e) => error_reply(md, &e),
            }
        }
        Request::Mkdir(md, path) => {
            let ghost pv = path@;
            match sys.mkdir(md.conn, md.tx_id, path) {
                Ok(events) => {
                    let ghost evd = events.deep_view();
                    let ghost pre = *old(sys);
                    let ghost post = *sys;
                    let out = ack(wire::XS_MKDIR, md, events);
                    proof {
                        assert(out.watch_events.deep_view() == evd);
                        let cvv = pre.view_changes(md.conn, md.tx_id)->Some_0;
                        let c2w = choose|c: Seq<ChangeView>|
                            #[trigger] System::settled(pre, post, md.conn, md.tx_id, evd, c) && (
                            match eff_lookup(pre.store.nodes(), cvv, pv) {
                                Some(_) => c == cvv,
                                None => write_updated(
                                    pre.store.nodes(),
                                    cvv,
                                    c,
                                    md.conn.dom_id,
                                    pv,
                                    Seq::<char>::empty(),
                                ),
                            });
                        assert(System::settled(
                            pre,
                            post,
                            md.conn,
                            md.tx_id,
                            out.watch_events.deep_view(),
                            c2w,
                        ));
                    }
                    out
                }
                Err(e) => error_reply(md, &e),
            }
        }
        Request::Remove(md, path) => {
            match sys.rm(md.conn, md.tx_id, &path) {
                Ok(events) => {
                    let ghost evd = events.deep_view();
                    let ghost pre = *old(sys);
                    let ghost post = *sys;
                    let out = ack(wire::XS_RM, md, events);
                    proof {
                        assert(out.watch_events.deep_view() == evd);
                        let cvv = pre.view_changes(md.conn, md.tx_id)->Some_0;
                        let c2w = choose|c: Seq<ChangeView>|
                            #[trigger] rm_updated(pre.store.nodes(), cvv, c, path@)
                                && System::settled(pre, post, md.conn, md.tx_id, evd, c);
                        assert(rm_updated(pre.store.nodes(), cvv, c2w, path@) && System::settled(
                            pre,
                            post,
                            md.conn,
                            md.tx_id,
                            out.watch_events.deep_view(),
                            c2w,
                        ));
                    }
                    out
                }
                Err(e) => error_reply(md, &e),
            }
        }
        Request::Write(md, path, value) => {
            let ghost pv = path@;
            let ghost vv = value@;
            match sys.write(md.conn, md.tx_id, path, value) {
                Ok(events) => {
                    let ghost evd = events.deep_view();
                    let ghost pre = *old(sys);
                    let ghost post = *sys;
                    let out = ack(wire::XS_WRITE, md, events);
                    proof {
                        assert(out.watch_events.deep_view() == evd);
                        let cvv = pre.view_changes(md.conn, md.tx_id)->Some_0;
                        let c2w = choose|c: Seq<ChangeView>|
                            #[trigger] write_updated(pre.store.nodes(), cvv, c, md.conn.dom_id, pv, vv)
                                && System::settled(pre, post, md.conn, md.tx_id, evd, c);
                        assert(write_updated(pre.store.nodes(), cvv, c2w, md.conn.dom_id, pv, vv)
                            && System::settled(
                            pre,
                            post,
                            md.conn,
                            md.tx_id,
                            out.watch_events.deep_view(),
                            c2w,
                        ));
                    }
                    out
                }
                Err(e) => error_reply(md, &e),
            }
        }
        Request::SetPerms(md, path, perms) => {
            let ghost psv = perms@;
            match sys.set_perms(md.conn, md.tx_id, &path, perms) {
                Ok(events) => {
                    let ghost evd = events.deep_view();
                    let ghost pre = *old(sys);
                    let ghost post = *sys;
                    let out = ack(wire::XS_SET_PERMS, md, events);
                    proof {
                        assert(out.watch_events.deep_view() == evd);
                        let cvv = pre.view_changes(md.conn, md.tx_id)->Some_0;
                        let nv = eff_lookup(pre.store.nodes(), cvv, path@)->Some_0;
                        let c2w = choose|c: Seq<ChangeView>|
                            {
                                &&& (forall|q: PathView|
                                    q != path@ ==> #[trigger] eff_lookup(pre.store.nodes(), c, q)
                                        == eff_lookup(pre.store.nodes(), cvv, q))
                                &&& eff_lookup(pre.store.nodes(), c, path@) == Some(
                                    crate::store::NodeView { permissions: psv, ..nv },
                                )
                                &&& System::settled(pre, post, md.conn, md.tx_id, evd, c)
                            };
                        assert(eff_lookup(pre.store.nodes(), c2w, path@) == Some(
                            crate::store::NodeView { permissions: psv, ..nv },
                        ) && System::settled(
                            pre,
                            post,
                            md.conn,
                            md.tx_id,
                            out.watch_events.deep_view(),
                            c2w,
                        ));
                    }
                    out
                }
                Err(e) => error_reply(md, &e),
            }
        }
        Request::Watch(md, node, token) => {
            match sys.watch(md.conn, node, token) {
                Ok(()) => {
                    let events: Vec<Watch> = Vec::new();
                    proof {
                        assert(events.deep_view() =~= Seq::<WatchView>::empty());
                    }
                    ack(wire::XS_WATCH, md, events)
                }
                Err(e) => error_reply(md, &e),
            }
        }
        Request::Unwatch(md, node, token) => {
            match sys.unwatch(md.conn, node, token) {
                Ok(()) => {
                    let events: Vec<Watch> = Vec::new();
                    proof {
                        assert(events.deep_view() =~= Seq::<WatchView>::empty());
                    }
                    ack(wire::XS_UNWATCH, md, events)
                }
                Err(e) => error_reply(md, &e),
            }
        }
        Request::TransactionStart(md) => {
            match sys.transaction_start(md.conn) {
                Ok(tx_id) => {
                    let digits = fmt_u32(tx_id);
                    let s = chars_string(&digits);
                    let mut fields: Vec<Vec<u8>> = Vec::new();
                    fields.push(s.as_str().as_bytes_vec());
                    let events: Vec<Watch> = Vec::new();
                    let ghost pre = *old(sys);
                    let ghost post = *sys;
                    proof {
                        assert(fields.deep_view() =~~= seq![encode_utf8(dec_chars(
                            tx_id as nat,
                        ))]);
                        assert(events.deep_view() =~= Seq::<WatchView>::empty());
                    }
                    let out = reply(wire::XS_TRANSACTION_START, md, fields, events);
                    proof {
                        assert(tx_id != ROOT_TRANSACTION && find_tx(pre.txns.txs(), tx_id)
                            is None && ((#[trigger] find_tx(post.txns.txs(), tx_id)) matches Some(
                            t,
                        ) && t.conn == md.conn && t.changes.parent_gen() == pre.store.gen()
                            && t.changes.changes() == Seq::<ChangeView>::empty()) && (forall|
                            other: TxId,
                        |
                            other != tx_id ==> #[trigger] find_tx(post.txns.txs(), other)
                                == find_tx(pre.txns.txs(), other)) && reply_shape(
                            out,
                            wire::XS_TRANSACTION_START,
                            md,
                            seq![encode_utf8(dec_chars(tx_id as nat))],
                            Seq::<WatchView>::empty(),
                        ));
                    }
                    out
                }
                Err(e) => error_reply(md, &e),
            }
        }
        Request::TransactionEnd(md, success) => {
            match sys.transaction_end(md.conn, md.tx_id, success) {
                Ok(events) => {
                    let ghost evd = events.deep_view();
                    let out = ack(wire::XS_TRANSACTION_END, md, events);
                    proof {
                        assert(out.watch_events.deep_view() == evd);
                        if !success {
                            assert(evd =~= Seq::<WatchView>::empty());
                        }
                    }
                    out
                }
                Err(e) => error_reply(md, &e),
            }
        }
        Request::Release(md) => {
            let events: Vec<Watch> = Vec::new();
            proof {
                assert(events.deep_view() =~= Seq::<WatchView>::empty());
            }
            ack(wire::XS_RELEASE, md, events)
        },
        Request::GetDomainPath(md) => {
            let home = get_domain_path(md.conn.dom_id);
            let rendered = home.render();
            let mut cs = str_chars(rendered.as_str());
            cs.push('/');
            let s = chars_string(&cs);
            let mut fields: Vec<Vec<u8>> = Vec::new();
            fields.push(s.as_str().as_bytes_vec());
            let events: Vec<Watch> = Vec::new();
            proof {
                assert(cs@ =~= Path::spec_render(domain_prefix(md.conn.dom_id)) + seq!['/']);
                assert(fields.deep_view() =~~= seq![encode_utf8(
                    Path::spec_render(domain_prefix(md.conn.dom_id)) + seq!['/'],
                )]);
                assert(events.deep_view() =~= Seq::<WatchView>::empty());
            }
            reply(wire::XS_GET_DOMAIN_PATH, md, fields, events)
        }
        Request::Resume(md) => {
            let events: Vec<Watch> = Vec::new();
            proof {
                assert(events.deep_view() =~= Seq::<WatchView>::empty());
            }
            ack(wire::XS_RESUME, md, events)
        },
        Request::Restrict(md) => {
            let events: Vec<Watch> = Vec::new();
            proof {
                assert(events.deep_view() =~= Seq::<WatchView>::empty());
            }
            ack(wire::XS_RESTRICT, md, events)
        },
        Request::IsDomainIntroduced(md) => {
            let events: Vec<Watch> = Vec::new();
            proof {
                assert(events.deep_view() =~= Seq::<WatchView>::empty());
            }
            ack(wire::XS_IS_DOMAIN_INTRODUCED, md, events)
        },
        Request::ErrorMsg(md, e) => error_reply(md, &e),
    }
}

/// One permission entry in its wire form.
fn perm_field(p: &Permission) -> (r: Vec<u8>)
    ensures
        r@ == perm_wire(*p),
{
    let mode: char = if p.perm == PERM_READ {
        'r'
    } else if p.perm == PERM_WRITE {
        'w'
    } else if p.perm == PERM_BOTH {
        'b'
    } else {
        'n'
    };
    let mut cs: Vec<char> = Vec::new();
    cs.push(mode);
    proof {
        assert(cs@ =~= seq![mode_char(p.perm)] + dec_chars(p.id as nat).take(0));
    }
    let digits = fmt_u32(p.id);
    let mut i: usize = 0;
    let n = digits.len();
    while i < n
        invariant
            i <= n,
            n == digits@.len(),
            digits@ == dec_chars(p.id as nat),
            cs@ == seq![mode_char(p.perm)] + dec_chars(p.id as nat).take(i as int),
        decreases n - i,
    {
        cs.push(digits[i]);
        proof {
            assert(cs@ =~= seq![mode_char(p.perm)] + dec_chars(p.id as nat).take(i + 1));
        }
        i = i + 1;
    }
    proof {
        assert(dec_chars(p.id as nat).take(i as int) =~= dec_chars(p.id as nat));
    }
    let s = chars_string(&cs);
    s.as_str().as_bytes_vec()
}

/// The wire form of one permission entry: its mode letter, then the
/// domain id in decimal, with nothing between them.
pub open spec fn mode_char(m: Perm) -> char {
    if m == PERM_READ {
        'r'
    } else if m == PERM_WRITE {
        'w'
    } else if m == PERM_BOTH {
        'b'
    } else {
        'n'
    }
}

/// The bytes a permission entry prints as.
pub open spec fn perm_wire(p: Permission) -> Seq<u8> {
    encode_utf8(seq![mode_char(p.perm)] + dec_chars(p.id as nat))
}

/// The bytes a watch pattern prints as in an event: the rendered
/// path, or the sentinel's own name.
pub open spec fn node_wire(w: WPathView) -> Seq<u8> {
    match w {
        WPathView::Normal(p) => encode_utf8(Path::spec_render(p)),
        WPathView::IntroduceDomain => encode_utf8("@introduceDomain"@),
        WPathView::ReleaseDomain => encode_utf8("@releaseDomain"@),
    }
}

/// An asynchronous watch event: the changed path (or sentinel) and
/// the subscription's token, delivered to the watch's owner with
/// both ids zero.
pub struct WatchEvent {
    pub md: Metadata,
    pub node: WPath,
    pub token: String,
}

impl WatchEvent {
    /// The event a fired subscription turns into.
    pub fn new(watch: Watch) -> (r: WatchEvent)
        ensures
            r.md.conn == watch.conn,
            r.md.req_id == 0,
            r.md.tx_id == 0,
            r.node@ == watch.node@,
            r.token@ == watch.token@,
    {
        WatchEvent {
            md: Metadata { conn: watch.conn, req_id: 0, tx_id: 0 },
            node: watch.node,
            token: watch.token,
        }
    }

    /// The event's frame: the path (or sentinel name) and the token,
    /// each a NUL-terminated field.
    pub fn encode(&self) -> (r: Response)
        ensures
            reply_shape(
                r,
                wire::XS_WATCH_EVENT,
                self.md,
                seq![node_wire(self.node@), encode_utf8(self.token@)],
                Seq::<WatchView>::empty(),
            ),
    {
        let node_bytes: Vec<u8> = match &self.node {
            WPath::Normal(p) => p.as_bytes(),
            WPath::IntroduceDomain => "@introduceDomain".as_bytes_vec(),
            WPath::ReleaseDomain => "@releaseDomain".as_bytes_vec(),
        };
        proof {
            assert(node_bytes@ == node_wire(self.node@));
        }
        let mut fields: Vec<Vec<u8>> = Vec::new();
        fields.push(node_bytes);
        fields.push(self.token.as_str().as_bytes_vec());
        let events: Vec<Watch> = Vec::new();
        proof {
            assert(fields.deep_view() =~~= seq![node_wire(self.node@), encode_utf8(self.token@)]);
            assert(events.deep_view() =~= Seq::<WatchView>::empty());
        }
        reply(wire::XS_WATCH_EVENT, self.md, fields, events)
    }
}

} // verus!
