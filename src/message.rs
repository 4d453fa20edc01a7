use crate::guid::{hex_of, sha256_of, GUID};
use crate::node::Location;
use crate::util::{decimal, decimal_of};
use vstd::prelude::*;
use vstd::string::StringExecFns;

verus! {

/// What a message carries.
#[derive(Debug, Clone)]
pub enum MessageType {
    Terminate,
    Request(Request),
    Response(Response),
}

#[derive(Debug, Clone)]
pub enum Request {
    Ping,
    FindNode(GUID),
    Store(String, String),
    FindValue(String),
    Join,
}

#[derive(Debug, Clone)]
pub enum Response {
    Pong,
    FindNode(Vec<Location>),
    Store,
    FindValue(FindValue),
    Join,
}

#[derive(Debug, Clone)]
pub enum FindValue {
    Value(String),
    ClosestNodes(Vec<Location>),
}

/// An envelope: the request identifier that correlates a response with its request,
/// the destination, the source and the payload.
#[derive(Debug, Clone)]
pub struct Message {
    pub id: String,
    pub dist: Location,
    pub source: Location,
    pub msg: MessageType,
}

/// The seed of a request identifier: both peers' identifiers in hex and the time in
/// milliseconds.
pub open spec fn request_seed(source: Seq<u8>, dist: Seq<u8>, millis: int) -> Seq<char> {
    hex_of(source) + seq![':'] + hex_of(dist) + seq![':'] + decimal_of(millis)
}

/// A request identifier: the hex text of the digest of the seed.
pub open spec fn request_id_of(source: Seq<u8>, dist: Seq<u8>, millis: int) -> Seq<char> {
    hex_of(sha256_of(request_seed(source, dist, millis)))
}

/// Relies on chrono::Local::now and DateTime::timestamp_millis: the current time in
/// milliseconds since the epoch; nothing is known of its value.
#[verifier::external_body]
fn now_millis() -> (r: i64) {
    chrono::Local::now().timestamp_millis()
}

impl Message {
    /// A request from `source` to `dist`, identified by the digest of both identifiers and
    /// the current time.
    pub fn new_req(msg: MessageType, source: Location, dist: Location) -> (r: Message)
        ensures
            r.msg == msg,
            r.source == source,
            r.dist == dist,
            exists|millis: i64| r.id@ == request_id_of(source.id@, dist.id@, millis as int),
    {
        let millis = now_millis();
        Message::new_req_at(msg, source, dist, millis)
    }

    /// A request as `new_req` makes it, at the time `millis`.
    pub fn new_req_at(msg: MessageType, source: Location, dist: Location, millis: i64) -> (r:
        Message)
        ensures
            r.msg == msg,
            r.source == source,
            r.dist == dist,
            r.id@ == request_id_of(source.id@, dist.id@, millis as int),
    {
        proof {
            reveal_strlit(":");
        }
        let seed = source.id.to_hex().concat(":").concat(dist.id.to_hex().as_str()).concat(
            ":",
        ).concat(decimal(millis).as_str());
        assert(seed@ =~= request_seed(source.id@, dist.id@, millis as int));
        let id = GUID::new(seed).to_hex();
        Message { id, dist, source, msg }
    }

    /// A response that carries the request's identifier back.
    pub fn new_res(req_id: String, msg: MessageType, source: Location, dist: Location) -> (r:
        Message)
        ensures
            r.id == req_id,
            r.msg == msg,
            r.source == source,
            r.dist == dist,
    {
        Message { id: req_id, dist, source, msg }
    }
}

} // verus!
