//! End-to-end request handling through the dispatcher.

use xenstored::connection::ConnId;
use xenstored::message::{parse, process, Response, WatchEvent};
use xenstored::store::Store;
use xenstored::system::System;
use xenstored::transaction::TransactionList;
use xenstored::watch::WatchList;
use xenstored::wire::{
    Body, Header, XS_DIRECTORY, XS_ERROR, XS_GET_DOMAIN_PATH, XS_GET_PERMS, XS_READ, XS_RM,
    XS_SET_PERMS, XS_TRANSACTION_END, XS_TRANSACTION_START, XS_WATCH, XS_WATCH_EVENT, XS_WRITE,
};

fn fresh_system() -> System {
    System::new(Store::new(), WatchList::new(), TransactionList::new())
}

fn send(sys: &mut System, dom: u32, msg_type: u32, tx_id: u32, fields: &[&[u8]]) -> Response {
    let conn = ConnId::new(dom as usize, dom);
    let body = Body(fields.iter().map(|f| f.to_vec()).collect());
    let header = Header {
        msg_type,
        req_id: 7,
        tx_id,
        len: body.to_vec().len() as u32,
    };
    let request = parse(conn, &header, body);
    process(sys, request)
}

fn body_bytes(r: &Response) -> Vec<u8> {
    r.body.to_vec()
}

fn assert_ok_empty(r: &Response, msg_type: u32) {
    assert_eq!(r.header.msg_type, msg_type);
    assert_eq!(r.header.len, 0);
    assert_eq!(body_bytes(r), b"");
}

fn assert_error(r: &Response, name: &str) {
    assert_eq!(r.header.msg_type, XS_ERROR);
    let mut expected = name.as_bytes().to_vec();
    expected.push(0);
    assert_eq!(body_bytes(r), expected);
}

#[test]
fn basic_write_read_directory() {
    let mut sys = fresh_system();

    let r = send(&mut sys, 0, XS_WRITE, 0, &[b"/a", b"v"]);
    assert_ok_empty(&r, XS_WRITE);
    assert_eq!(r.header.req_id, 7);

    let r = send(&mut sys, 0, XS_READ, 0, &[b"/a"]);
    assert_eq!(r.header.msg_type, XS_READ);
    assert_eq!(body_bytes(&r), b"v\0");

    let r = send(&mut sys, 0, XS_DIRECTORY, 0, &[b"/"]);
    let listing = body_bytes(&r);
    let names: Vec<&[u8]> = listing.split(|b| *b == 0).filter(|f| !f.is_empty()).collect();
    assert!(names.contains(&&b"a"[..]));
}

#[test]
fn recursive_create() {
    let mut sys = fresh_system();

    let r = send(&mut sys, 0, XS_WRITE, 0, &[b"/x/y/z", b"leaf"]);
    assert_ok_empty(&r, XS_WRITE);

    let r = send(&mut sys, 0, XS_READ, 0, &[b"/x"]);
    assert_eq!(body_bytes(&r), b"");
    let r = send(&mut sys, 0, XS_READ, 0, &[b"/x/y"]);
    assert_eq!(body_bytes(&r), b"");
    let r = send(&mut sys, 0, XS_READ, 0, &[b"/x/y/z"]);
    assert_eq!(body_bytes(&r), b"leaf\0");

    let r = send(&mut sys, 0, XS_DIRECTORY, 0, &[b"/x/y"]);
    assert_eq!(body_bytes(&r), b"z\0");
}

fn parse_tx_id(r: &Response) -> u32 {
    let bytes = body_bytes(r);
    let digits = bytes.split(|b| *b == 0).next().unwrap();
    std::str::from_utf8(digits).unwrap().parse().unwrap()
}

#[test]
fn transaction_commit_fires_watch() {
    let mut sys = fresh_system();

    let r = send(&mut sys, 0, XS_WATCH, 0, &[b"/a", b"tok"]);
    assert_ok_empty(&r, XS_WATCH);

    let r = send(&mut sys, 0, XS_TRANSACTION_START, 0, &[]);
    assert_eq!(r.header.msg_type, XS_TRANSACTION_START);
    let tx = parse_tx_id(&r);
    assert_ne!(tx, 0);

    let r = send(&mut sys, 0, XS_WRITE, tx, &[b"/a", b"v1"]);
    assert_ok_empty(&r, XS_WRITE);
    assert_eq!(r.watch_events.len(), 0, "nothing fires before the commit");

    let r = send(&mut sys, 0, XS_TRANSACTION_END, tx, &[b"T"]);
    assert_ok_empty(&r, XS_TRANSACTION_END);
    assert_eq!(r.watch_events.len(), 1);
    let event = WatchEvent::new(r.watch_events.into_iter().next().unwrap()).encode();
    assert_eq!(event.header.msg_type, XS_WATCH_EVENT);
    assert_eq!(event.header.req_id, 0);
    assert_eq!(event.header.tx_id, 0);
    assert_eq!(event.body.to_vec(), b"/a\0tok\0");
}

#[test]
fn transaction_conflict_fails_with_eagain() {
    let mut sys = fresh_system();

    let r = send(&mut sys, 0, XS_TRANSACTION_START, 0, &[]);
    let tx = parse_tx_id(&r);

    let r = send(&mut sys, 0, XS_WRITE, tx, &[b"/a", b"txv"]);
    assert_ok_empty(&r, XS_WRITE);

    // a racing root-transaction write bumps the generation
    let r = send(&mut sys, 0, XS_WRITE, 0, &[b"/a", b"v"]);
    assert_ok_empty(&r, XS_WRITE);

    let r = send(&mut sys, 0, XS_TRANSACTION_END, tx, &[b"T"]);
    assert_error(&r, "EAGAIN");
}

#[test]
fn permission_denial_across_domains() {
    let mut sys = fresh_system();

    let r = send(&mut sys, 0, XS_WRITE, 0, &[b"/local/domain/1", b"x"]);
    assert_ok_empty(&r, XS_WRITE);
    let r = send(&mut sys, 0, XS_SET_PERMS, 0, &[b"/local/domain/1", b"n1"]);
    assert_ok_empty(&r, XS_SET_PERMS);

    // domain 1 writes below its home directory
    let r = send(&mut sys, 1, XS_WRITE, 0, &[b"foo", b"value"]);
    assert_ok_empty(&r, XS_WRITE);

    // domain 2 may not read it, the privileged domain may
    let r = send(&mut sys, 2, XS_READ, 0, &[b"/local/domain/1/foo"]);
    assert_error(&r, "EACCES");
    let r = send(&mut sys, 0, XS_READ, 0, &[b"/local/domain/1/foo"]);
    assert_eq!(body_bytes(&r), b"value\0");
}

#[test]
fn subtree_removal() {
    let mut sys = fresh_system();

    let r = send(&mut sys, 0, XS_WRITE, 0, &[b"/b/x", b"1"]);
    assert_ok_empty(&r, XS_WRITE);
    let r = send(&mut sys, 0, XS_WRITE, 0, &[b"/b/y", b"2"]);
    assert_ok_empty(&r, XS_WRITE);

    let r = send(&mut sys, 0, XS_RM, 0, &[b"/b"]);
    assert_ok_empty(&r, XS_RM);

    for path in [&b"/b"[..], &b"/b/x"[..], &b"/b/y"[..]] {
        let r = send(&mut sys, 0, XS_READ, 0, &[path]);
        assert_error(&r, "ENOENT");
    }

    let r = send(&mut sys, 0, XS_RM, 0, &[b"/"]);
    assert_error(&r, "EINVAL");
}

#[test]
fn get_perms_wire_form() {
    let mut sys = fresh_system();
    let r = send(&mut sys, 0, XS_WRITE, 0, &[b"/p", b"x"]);
    assert_ok_empty(&r, XS_WRITE);
    let r = send(&mut sys, 0, XS_SET_PERMS, 0, &[b"/p", b"n1", b"r2", b"w3", b"b4"]);
    assert_ok_empty(&r, XS_SET_PERMS);
    let r = send(&mut sys, 0, XS_GET_PERMS, 0, &[b"/p"]);
    assert_eq!(body_bytes(&r), b"n1\0r2\0w3\0b4\0");
}

#[test]
fn get_domain_path_reply() {
    let mut sys = fresh_system();
    let r = send(&mut sys, 5, XS_GET_DOMAIN_PATH, 0, &[]);
    assert_eq!(r.header.msg_type, XS_GET_DOMAIN_PATH);
    assert_eq!(body_bytes(&r), b"/local/domain/5/\0");
}

#[test]
fn unknown_message_type_is_invalid() {
    let mut sys = fresh_system();
    let r = send(&mut sys, 0, 0xffff, 0, &[]);
    assert_error(&r, "EINVAL");
}

#[test]
fn replies_echo_the_request_ids() {
    let mut sys = fresh_system();
    let conn = ConnId::new(0, 0);
    let body = Body(vec![b"/nope".to_vec()]);
    let header = Header { msg_type: XS_READ, req_id: 99, tx_id: 4242, len: body.to_vec().len() as u32 };
    let request = parse(conn, &header, body);
    let r = process(&mut sys, request);
    assert_eq!(r.header.req_id, 99);
    assert_eq!(r.header.tx_id, 4242);
    assert_error(&r, "ENOENT");
}

#[test]
fn dir() {
    // a well-formed DIRECTORY frame parses into a directory request
    // and lists the initial tree
    let mut sys = fresh_system();
    let r = send(&mut sys, 0, XS_DIRECTORY, 0, &[b"/tool"]);
    assert_eq!(r.header.msg_type, XS_DIRECTORY);
    assert_eq!(body_bytes(&r), b"xenstored\0");
}
