//! The closed set of request-level errors. Every failed request is
//! answered with a single error reply whose body carries the error's
//! name; no request failure tears down a connection.

use vstd::prelude::*;
use vstd::utf8::is_ascii_chars;

verus! {

/// An error outcome of a request, carrying a short human-readable note.
/// The wire reply carries only the name of the variant.
#[derive(Clone, Debug, PartialEq)]
pub enum Error {
    EINVAL(String),
    EACCES(String),
    EEXIST(String),
    EISDIR(String),
    ENOENT(String),
    ENOMEM(String),
    ENOSPC(String),
    EIO(String),
    ENOTEMPTY(String),
    ENOSYS(String),
    EROFS(String),
    EBUSY(String),
    EAGAIN(String),
    EISCONN(String),
    E2BIG(String),
}

impl Error {
    /// The error's wire name, as characters.
    pub open spec fn spec_name(&self) -> Seq<char> {
        match *self {
            Error::EINVAL(_) => "EINVAL"@,
            Error::EACCES(_) => "EACCES"@,
            Error::EEXIST(_) => "EEXIST"@,
            Error::EISDIR(_) => "EISDIR"@,
            Error::ENOENT(_) => "ENOENT"@,
            Error::ENOMEM(_) => "ENOMEM"@,
            Error::ENOSPC(_) => "ENOSPC"@,
            Error::EIO(_) => "EIO"@,
            Error::ENOTEMPTY(_) => "ENOTEMPTY"@,
            Error::ENOSYS(_) => "ENOSYS"@,
            Error::EROFS(_) => "EROFS"@,
            Error::EBUSY(_) => "EBUSY"@,
            Error::EAGAIN(_) => "EAGAIN"@,
            Error::EISCONN(_) => "EISCONN"@,
            Error::E2BIG(_) => "E2BIG"@,
        }
    }

    /// The error's wire name: what an error reply carries in its body.
    pub fn name(&self) -> (r: &'static str)
        ensures
            r@ == self.spec_name(),
    {
        match *self {
            Error::EINVAL(_) => "EINVAL",
            Error::EACCES(_) => "EACCES",
            Error::EEXIST(_) => "EEXIST",
            Error::EISDIR(_) => "EISDIR",
            Error::ENOENT(_) => "ENOENT",
            Error::ENOMEM(_) => "ENOMEM",
            Error::ENOSPC(_) => "ENOSPC",
            Error::EIO(_) => "EIO",
            Error::ENOTEMPTY(_) => "ENOTEMPTY",
            Error::ENOSYS(_) => "ENOSYS",
            Error::EROFS(_) => "EROFS",
            Error::EBUSY(_) => "EBUSY",
            Error::EAGAIN(_) => "EAGAIN",
            Error::EISCONN(_) => "EISCONN",
            Error::E2BIG(_) => "E2BIG",
        }
    }
}

/// Every error name is a short ASCII word, so it always fits in an
/// error reply's body.
pub proof fn lemma_error_name_short(e: Error)
    ensures
        is_ascii_chars(e.spec_name()),
        0 < e.spec_name().len() < 16,
{
    match e {
        Error::EINVAL(_) => {
            reveal_strlit("EINVAL");
        }
        Error::EACCES(_) => {
            reveal_strlit("EACCES");
        }
        Error::EEXIST(_) => {
            reveal_strlit("EEXIST");
        }
        Error::EISDIR(_) => {
            reveal_strlit("EISDIR");
        }
        Error::ENOENT(_) => {
            reveal_strlit("ENOENT");
        }
        Error::ENOMEM(_) => {
            reveal_strlit("ENOMEM");
        }
        Error::ENOSPC(_) => {
            reveal_strlit("ENOSPC");
        }
        Error::EIO(_) => {
            reveal_strlit("EIO");
        }
        Error::ENOTEMPTY(_) => {
            reveal_strlit("ENOTEMPTY");
        }
        Error::ENOSYS(_) => {
            reveal_strlit("ENOSYS");
        }
        Error::EROFS(_) => {
            reveal_strlit("EROFS");
        }
        Error::EBUSY(_) => {
            reveal_strlit("EBUSY");
        }
        Error::EAGAIN(_) => {
            reveal_strlit("EAGAIN");
        }
        Error::EISCONN(_) => {
            reveal_strlit("EISCONN");
        }
        Error::E2BIG(_) => {
            reveal_strlit("E2BIG");
        }
    }
}

} // verus!
