use vstd::prelude::*;
use rlibbencode::variables::bencode_object::BencodeObject;
use crate::bencode::{
    ben_bytes, ben_dicts, ben_lists, ben_items, ben_new, ben_put_bytes, ben_put_dict,
    ben_put_list, ben_get_bytes, ben_get_dict, ben_get_list, ben_list_new, ben_list_push_number,
    ben_list_push_bytes, ben_list_len, ben_list_number, ben_list_bytes,
};
use crate::decimal::{decimal_of, parse_i32};
use crate::net::{AddressTypes, SocketAddress, pack_address, unpack_address, spec_pack_address, reads_address, lemma_address_round_trip};
use crate::node::{Node, pack_nodes, unpack_nodes, spec_pack_nodes, reads_node, node_length, same_node, lemma_nodes_round_trip, lemma_pack_nodes_append, lemma_pack_nodes_other};
use crate::decimal::lemma_decimal_injective;
use crate::tracker::TID_LENGTH;
use crate::uid::{UID, ID_LENGTH};

verus! {

/// Most nodes a `find_node` response carries.
pub const NODE_CAP: usize = 20;

/// Error code: generic error.
pub const GENERIC_ERROR: i32 = 201;

/// Error code: server error.
pub const SERVER_ERROR: i32 = 202;

/// Error code: protocol error, such as a malformed packet.
pub const PROTOCOL_ERROR: i32 = 203;

/// Error code: method unknown.
pub const METHOD_UNKNOWN: i32 = 204;

/// The keys of a frame, as bytes: "t", "y", "q", "v", "a", "r", "e", "ip", "id",
/// "target", "nodes" and "nodes6".
pub open spec fn key_t() -> Seq<u8> {
    seq![116u8]
}

pub open spec fn key_y() -> Seq<u8> {
    seq![121u8]
}

pub open spec fn key_q() -> Seq<u8> {
    seq![113u8]
}

pub open spec fn key_v() -> Seq<u8> {
    seq![118u8]
}

pub open spec fn key_a() -> Seq<u8> {
    seq![97u8]
}

pub open spec fn key_r() -> Seq<u8> {
    seq![114u8]
}

pub open spec fn key_e() -> Seq<u8> {
    seq![101u8]
}

pub open spec fn key_ip() -> Seq<u8> {
    seq![105u8, 112u8]
}

pub open spec fn key_id() -> Seq<u8> {
    seq![105u8, 100u8]
}

pub open spec fn key_target() -> Seq<u8> {
    seq![116u8, 97u8, 114u8, 103u8, 101u8, 116u8]
}

pub open spec fn key_nodes() -> Seq<u8> {
    seq![110u8, 111u8, 100u8, 101u8, 115u8]
}

pub open spec fn key_nodes6() -> Seq<u8> {
    seq![110u8, 111u8, 100u8, 101u8, 115u8, 54u8]
}

/// The protocol version written in every frame, "1.0".
pub open spec fn version_text() -> Seq<u8> {
    seq![49u8, 46u8, 48u8]
}

/// The method names on the wire: "ping" and "find_node".
pub open spec fn method_ping() -> Seq<u8> {
    seq![112u8, 105u8, 110u8, 103u8]
}

pub open spec fn method_find_node() -> Seq<u8> {
    seq![102u8, 105u8, 110u8, 100u8, 95u8, 110u8, 111u8, 100u8, 101u8]
}

/// The three kinds of frame, by their `y` value.
#[derive(Copy, Clone, Debug, PartialEq, Eq, Structural, Hash)]
pub enum MessageType {
    ReqMsg,
    RspMsg,
    ErrMsg,
}

/// The methods this node speaks.
#[derive(Copy, Clone, Debug, PartialEq, Eq, Structural, Hash)]
pub enum Method {
    Ping,
    FindNode,
}

impl MessageType {
    pub open spec fn spec_rpc_name(&self) -> Seq<u8> {
        match self {
            MessageType::ReqMsg => seq![113u8],
            MessageType::RspMsg => seq![114u8],
            MessageType::ErrMsg => seq![101u8],
        }
    }

    /// The `y` value of the kind: "q", "r" or "e".
    pub fn rpc_type_name(&self) -> (r: Vec<u8>)
        ensures
            r@ == self.spec_rpc_name(),
    {
        match self {
            MessageType::ReqMsg => vec![113u8],
            MessageType::RspMsg => vec![114u8],
            MessageType::ErrMsg => vec![101u8],
        }
    }

    /// The kind whose `y` value is `name`.
    pub fn from_rpc_type_name(name: &[u8]) -> (r: Option<MessageType>)
        ensures
            r is Some ==> r->0.spec_rpc_name() == name@,
            r is None ==> name@ != seq![113u8] && name@ != seq![114u8] && name@ != seq![101u8],
    {
        if name.len() != 1 {
            return None;
        }
        if name[0] == 113 {
            assert(name@ =~= seq![113u8]);
            Some(MessageType::ReqMsg)
        } else if name[0] == 114 {
            assert(name@ =~= seq![114u8]);
            Some(MessageType::RspMsg)
        } else if name[0] == 101 {
            assert(name@ =~= seq![101u8]);
            Some(MessageType::ErrMsg)
        } else {
            None
        }
    }
}

impl Method {
    pub open spec fn spec_name(&self) -> Seq<u8> {
        match self {
            Method::Ping => method_ping(),
            Method::FindNode => method_find_node(),
        }
    }

    /// The method's name on the wire.
    pub fn name(&self) -> (r: Vec<u8>)
        ensures
            r@ == self.spec_name(),
    {
        match self {
            Method::Ping => vec![112u8, 105u8, 110u8, 103u8],
            Method::FindNode => vec![102u8, 105u8, 110u8, 100u8, 95u8, 110u8, 111u8, 100u8, 101u8],
        }
    }

    /// The method called `name`, if this node speaks it.
    pub fn from_name(name: &[u8]) -> (r: Option<Method>)
        ensures
            r is Some ==> r->0.spec_name() == name@,
            r is None ==> name@ != method_ping() && name@ != method_find_node(),
    {
        let ping = vec![112u8, 105u8, 110u8, 103u8];
        let find_node = vec![102u8, 105u8, 110u8, 100u8, 95u8, 110u8, 111u8, 100u8, 101u8];
        if crate::net::bytes_equal(name, ping.as_slice()) {
            Some(Method::Ping)
        } else if crate::net::bytes_equal(name, find_node.as_slice()) {
            Some(Method::FindNode)
        } else {
            None
        }
    }
}

/// What every message carries: the transaction identifier, the sender's identifier,
/// the address the sender saw for the receiver, and where it goes or came from.
#[derive(Copy, Clone, Debug)]
pub struct Header {
    pub tid: [u8; 6],
    pub uid: Option<UID>,
    pub public: Option<SocketAddress>,
    pub destination: Option<SocketAddress>,
    pub origin: Option<SocketAddress>,
}

impl Header {
    pub open spec fn spec_new(tid: [u8; 6]) -> Header {
        Header { tid, uid: None, public: None, destination: None, origin: None }
    }

    /// A header with transaction identifier `tid` and nothing else.
    pub fn new(tid: [u8; 6]) -> (r: Header)
        ensures
            r == Header::spec_new(tid),
    {
        Header { tid, uid: None, public: None, destination: None, origin: None }
    }
}

/// A `ping` request.
pub struct PingRequest {
    pub header: Header,
}

/// A `ping` response.
pub struct PingResponse {
    pub header: Header,
}

/// A `find_node` request for the nodes closest to `target`.
pub struct FindNodeRequest {
    pub header: Header,
    pub target: Option<UID>,
}

/// A `find_node` response with the nodes the responder knows closest to the target.
pub struct FindNodeResponse {
    pub header: Header,
    pub nodes: Vec<Node>,
}

/// An error frame: a code and a description.
pub struct ErrorResponse {
    pub header: Header,
    pub code: i32,
    pub description: Vec<u8>,
}

/// A message of any kind.
pub enum Message {
    PingRequest(PingRequest),
    PingResponse(PingResponse),
    FindNodeRequest(FindNodeRequest),
    FindNodeResponse(FindNodeResponse),
    ErrorResponse(ErrorResponse),
}

/// Why a message could not be handled: a code and a description.
pub struct MessageException {
    pub code: i32,
    pub message: Vec<u8>,
}

impl MessageException {
    /// A protocol error, such as a malformed packet.
    pub fn protocol() -> (r: MessageException)
        ensures
            r.code == PROTOCOL_ERROR,
            r.message@ == error_text(PROTOCOL_ERROR),
    {
        MessageException { code: PROTOCOL_ERROR, message: protocol_error_text() }
    }
}

/// The description sent with an error code: "Protocol Error, such as a malformed
/// packet." for 203, "Method Unknown" for 204.
pub open spec fn error_text(code: i32) -> Seq<u8> {
    if code == PROTOCOL_ERROR {
        seq![80u8, 114, 111, 116, 111, 99, 111, 108, 32, 69, 114, 114, 111, 114, 44, 32, 115, 117, 99, 104, 32, 97, 115, 32, 97, 32, 109, 97, 108, 102, 111, 114, 109, 101, 100, 32, 112, 97, 99, 107, 101, 116, 46]
    } else if code == METHOD_UNKNOWN {
        seq![77u8, 101, 116, 104, 111, 100, 32, 85, 110, 107, 110, 111, 119, 110]
    } else {
        Seq::empty()
    }
}

/// "Protocol Error, such as a malformed packet."
fn protocol_error_text() -> (r: Vec<u8>)
    ensures
        r@ == error_text(PROTOCOL_ERROR),
{
    let r = vec![80u8, 114, 111, 116, 111, 99, 111, 108, 32, 69, 114, 114, 111, 114, 44, 32, 115, 117, 99, 104, 32, 97, 115, 32, 97, 32, 109, 97, 108, 102, 111, 114, 109, 101, 100, 32, 112, 97, 99, 107, 101, 116, 46];
    assert(r@ =~= error_text(PROTOCOL_ERROR));
    r
}

/// "Method Unknown"
pub fn method_unknown_text() -> (r: Vec<u8>)
    ensures
        r@ == error_text(METHOD_UNKNOWN),
{
    let r = vec![77u8, 101, 116, 104, 111, 100, 32, 85, 110, 107, 110, 111, 119, 110];
    assert(r@ =~= error_text(METHOD_UNKNOWN));
    r
}


impl Message {
    pub open spec fn spec_header(&self) -> Header {
        match self {
            Message::PingRequest(m) => m.header,
            Message::PingResponse(m) => m.header,
            Message::FindNodeRequest(m) => m.header,
            Message::FindNodeResponse(m) => m.header,
            Message::ErrorResponse(m) => m.header,
        }
    }

    pub open spec fn spec_type(&self) -> MessageType {
        match self {
            Message::PingRequest(_) | Message::FindNodeRequest(_) => MessageType::ReqMsg,
            Message::PingResponse(_) | Message::FindNodeResponse(_) => MessageType::RspMsg,
            Message::ErrorResponse(_) => MessageType::ErrMsg,
        }
    }

    /// The method of a request or response; an error frame has none.
    pub open spec fn spec_method(&self) -> Option<Method> {
        match self {
            Message::PingRequest(_) | Message::PingResponse(_) => Some(Method::Ping),
            Message::FindNodeRequest(_) | Message::FindNodeResponse(_) => Some(Method::FindNode),
            Message::ErrorResponse(_) => None,
        }
    }

    /// The message can be written out: requests and responses carry the sender's
    /// identifier, and a `find_node` request its target.
    pub open spec fn encodable(&self) -> bool {
        match self {
            Message::PingRequest(m) => m.header.uid is Some,
            Message::FindNodeRequest(m) => m.header.uid is Some && m.target is Some,
            Message::PingResponse(m) => m.header.uid is Some,
            Message::FindNodeResponse(m) => m.header.uid is Some,
            Message::ErrorResponse(_) => true,
        }
    }
}

/// The IPv4 nodes of `ns` all come before its IPv6 nodes.
pub open spec fn v4_first(ns: Seq<Node>) -> bool {
    forall|i: int, j: int|
        0 <= i < j < ns.len() && (#[trigger] ns[j]).address.ip.family() == AddressTypes::Ipv4
            ==> (#[trigger] ns[i]).address.ip.family() == AddressTypes::Ipv4
}

/// The byte-string entries of the top-level dictionary of `m`.
pub open spec fn wire_bytes(m: Message) -> Map<Seq<u8>, Seq<u8>> {
    let h = m.spec_header();
    let base = Map::empty().insert(key_t(), h.tid@).insert(key_v(), version_text()).insert(
        key_y(),
        m.spec_type().spec_rpc_name(),
    );
    match m {
        Message::PingRequest(_) => base.insert(key_q(), method_ping()),
        Message::FindNodeRequest(_) => base.insert(key_q(), method_find_node()),
        _ => match h.public {
            Some(p) => base.insert(key_ip(), spec_pack_address(p)),
            None => base,
        },
    }
}

/// The nested dictionaries of `m`, each given by its byte-string entries.
pub open spec fn wire_dicts(m: Message) -> Map<Seq<u8>, Map<Seq<u8>, Seq<u8>>> {
    let h = m.spec_header();
    let id = Map::empty().insert(key_id(), h.uid->0@);
    match m {
        Message::PingRequest(_) => Map::empty().insert(key_a(), id),
        Message::FindNodeRequest(f) => Map::empty().insert(key_a(), match f.target {
            Some(t) => id.insert(key_target(), t@),
            None => id,
        }),
        Message::PingResponse(_) => Map::empty().insert(key_r(), id),
        Message::FindNodeResponse(f) => {
            let p4 = spec_pack_nodes(f.nodes@, AddressTypes::Ipv4);
            let p6 = spec_pack_nodes(f.nodes@, AddressTypes::Ipv6);
            let with4 = if p4.len() > 0 {
                id.insert(key_nodes(), p4)
            } else {
                id
            };
            let with6 = if p6.len() > 0 {
                with4.insert(key_nodes6(), p6)
            } else {
                with4
            };
            Map::empty().insert(key_r(), with6)
        },
        Message::ErrorResponse(_) => Map::empty(),
    }
}

/// The lists of `m`: an error frame's code and description.
pub open spec fn wire_lists(m: Message) -> Map<Seq<u8>, Seq<(u8, Seq<u8>)>> {
    match m {
        Message::ErrorResponse(e) => Map::empty().insert(
            key_e(),
            seq![(1u8, decimal_of(e.code as int)), (2u8, e.description@)],
        ),
        _ => Map::empty(),
    }
}

/// `o` holds exactly the frame of `m`.
pub open spec fn encodes(m: Message, o: BencodeObject) -> bool {
    &&& ben_bytes(o) == wire_bytes(m)
    &&& ben_dicts(o) == wire_dicts(m)
    &&& ben_lists(o) == wire_lists(m)
}

/// The keys of a frame and the version text, as bytes.
pub fn bytes_of_t() -> (r: Vec<u8>)
    ensures
        r@ == key_t(),
{
    vec![116u8]
}

pub fn bytes_of_y() -> (r: Vec<u8>)
    ensures
        r@ == key_y(),
{
    vec![121u8]
}

pub fn bytes_of_q() -> (r: Vec<u8>)
    ensures
        r@ == key_q(),
{
    vec![113u8]
}

pub fn bytes_of_v() -> (r: Vec<u8>)
    ensures
        r@ == key_v(),
{
    vec![118u8]
}

pub fn bytes_of_a() -> (r: Vec<u8>)
    ensures
        r@ == key_a(),
{
    vec![97u8]
}

pub fn bytes_of_r() -> (r: Vec<u8>)
    ensures
        r@ == key_r(),
{
    vec![114u8]
}

pub fn bytes_of_e() -> (r: Vec<u8>)
    ensures
        r@ == key_e(),
{
    vec![101u8]
}

pub fn bytes_of_ip() -> (r: Vec<u8>)
    ensures
        r@ == key_ip(),
{
    vec![105u8, 112u8]
}

pub fn bytes_of_id() -> (r: Vec<u8>)
    ensures
        r@ == key_id(),
{
    vec![105u8, 100u8]
}

pub fn bytes_of_target() -> (r: Vec<u8>)
    ensures
        r@ == key_target(),
{
    vec![116u8, 97u8, 114u8, 103u8, 101u8, 116u8]
}

pub fn bytes_of_nodes() -> (r: Vec<u8>)
    ensures
        r@ == key_nodes(),
{
    vec![110u8, 111u8, 100u8, 101u8, 115u8]
}

pub fn bytes_of_nodes6() -> (r: Vec<u8>)
    ensures
        r@ == key_nodes6(),
{
    vec![110u8, 111u8, 100u8, 101u8, 115u8, 54u8]
}

pub fn bytes_of_version() -> (r: Vec<u8>)
    ensures
        r@ == version_text(),
{
    vec![49u8, 46u8, 48u8]
}

proof fn lemma_keys_distinct()
    ensures
        key_t() != key_v() && key_t() != key_y() && key_t() != key_q() && key_t() != key_ip(),
        key_v() != key_y() && key_v() != key_q() && key_v() != key_ip(),
        key_y() != key_q() && key_y() != key_ip() && key_q() != key_ip(),
        key_id() != key_target() && key_id() != key_nodes() && key_id() != key_nodes6(),
        key_nodes() != key_nodes6() && key_a() != key_r(),
        key_t() != key_a() && key_t() != key_r() && key_t() != key_e(),
        key_v() != key_a() && key_v() != key_r() && key_v() != key_e(),
        key_y() != key_a() && key_y() != key_r() && key_y() != key_e(),
        key_q() != key_a() && key_ip() != key_a() && key_ip() != key_r() && key_ip() != key_e(),
{
    assert(key_t()[0] != key_v()[0]);
    assert(key_t()[0] != key_y()[0]);
    assert(key_t()[0] != key_q()[0]);
    assert(key_t().len() != key_ip().len());
    assert(key_v()[0] != key_y()[0]);
    assert(key_v()[0] != key_q()[0]);
    assert(key_v().len() != key_ip().len());
    assert(key_y()[0] != key_q()[0]);
    assert(key_y().len() != key_ip().len());
    assert(key_q().len() != key_ip().len());
    assert(key_id().len() != key_target().len());
    assert(key_id().len() != key_nodes().len());
    assert(key_id().len() != key_nodes6().len());
    assert(key_nodes().len() != key_nodes6().len());
    assert(key_a()[0] != key_r()[0]);
    assert(key_t()[0] != key_a()[0]);
    assert(key_t()[0] != key_r()[0]);
    assert(key_t()[0] != key_e()[0]);
    assert(key_v()[0] != key_a()[0]);
    assert(key_v()[0] != key_r()[0]);
    assert(key_v()[0] != key_e()[0]);
    assert(key_y()[0] != key_a()[0]);
    assert(key_y()[0] != key_r()[0]);
    assert(key_y()[0] != key_e()[0]);
    assert(key_q()[0] != key_a()[0]);
    assert(key_ip().len() != key_a().len());
    assert(key_ip().len() != key_r().len());
    assert(key_ip().len() != key_e().len());
}

proof fn lemma_new_object(o: BencodeObject)
    requires
        ben_bytes(o).dom() == Set::<Seq<u8>>::empty(),
        ben_dicts(o).dom() == Set::<Seq<u8>>::empty(),
        ben_lists(o).dom() == Set::<Seq<u8>>::empty(),
    ensures
        ben_bytes(o) == Map::<Seq<u8>, Seq<u8>>::empty(),
        ben_dicts(o) == Map::<Seq<u8>, Map<Seq<u8>, Seq<u8>>>::empty(),
        ben_lists(o) == Map::<Seq<u8>, Seq<(u8, Seq<u8>)>>::empty(),
{
    assert(ben_bytes(o) =~= Map::<Seq<u8>, Seq<u8>>::empty());
    assert(ben_dicts(o) =~= Map::<Seq<u8>, Map<Seq<u8>, Seq<u8>>>::empty());
    assert(ben_lists(o) =~= Map::<Seq<u8>, Seq<(u8, Seq<u8>)>>::empty());
}

impl Message {
    /// The header of the message.
    pub fn header(&self) -> (r: Header)
        ensures
            r == self.spec_header(),
    {
        match self {
            Message::PingRequest(m) => m.header,
            Message::PingResponse(m) => m.header,
            Message::FindNodeRequest(m) => m.header,
            Message::FindNodeResponse(m) => m.header,
            Message::ErrorResponse(m) => m.header,
        }
    }

    /// The kind of the message.
    pub fn get_type(&self) -> (r: MessageType)
        ensures
            r == self.spec_type(),
    {
        match self {
            Message::PingRequest(_) | Message::FindNodeRequest(_) => MessageType::ReqMsg,
            Message::PingResponse(_) | Message::FindNodeResponse(_) => MessageType::RspMsg,
            Message::ErrorResponse(_) => MessageType::ErrMsg,
        }
    }

    /// The frame of the message as a bencode dictionary.
    pub fn encode(&self) -> (r: BencodeObject)
        requires
            self.encodable(),
        ensures
            encodes(*self, r),
    {
        proof {
            lemma_keys_distinct();
        }
        let h = self.header();
        let mut ben = ben_new();
        proof {
            lemma_new_object(ben);
        }
        ben_put_bytes(&mut ben, bytes_of_t().as_slice(), h.tid.as_slice());
        ben_put_bytes(&mut ben, bytes_of_v().as_slice(), bytes_of_version().as_slice());
        ben_put_bytes(&mut ben, bytes_of_y().as_slice(), self.get_type().rpc_type_name().as_slice());
        let ghost top = ben_bytes(ben);
        match self {
            Message::PingRequest(m) => {
                ben_put_bytes(&mut ben, bytes_of_q().as_slice(), Method::Ping.name().as_slice());
                let mut inner = ben_new();
                proof {
                    lemma_new_object(inner);
                }
                let uid = m.header.uid.unwrap();
                ben_put_bytes(&mut inner, bytes_of_id().as_slice(), uid.bid.as_slice());
                ben_put_dict(&mut ben, bytes_of_a().as_slice(), inner);
            },
            Message::FindNodeRequest(m) => {
                ben_put_bytes(&mut ben, bytes_of_q().as_slice(), Method::FindNode.name().as_slice());
                let mut inner = ben_new();
                proof {
                    lemma_new_object(inner);
                }
                let uid = m.header.uid.unwrap();
                ben_put_bytes(&mut inner, bytes_of_id().as_slice(), uid.bid.as_slice());
                let target = m.target.unwrap();
                ben_put_bytes(&mut inner, bytes_of_target().as_slice(), target.bid.as_slice());
                ben_put_dict(&mut ben, bytes_of_a().as_slice(), inner);
            },
            Message::PingResponse(m) => {
                let mut inner = ben_new();
                proof {
                    lemma_new_object(inner);
                }
                let uid = m.header.uid.unwrap();
                ben_put_bytes(&mut inner, bytes_of_id().as_slice(), uid.bid.as_slice());
                ben_put_dict(&mut ben, bytes_of_r().as_slice(), inner);
                match m.header.public {
                    Some(p) => ben_put_bytes(&mut ben, bytes_of_ip().as_slice(), pack_address(&p).as_slice()),
                    None => {},
                }
            },
            Message::FindNodeResponse(m) => {
                let mut inner = ben_new();
                proof {
                    lemma_new_object(inner);
                }
                let uid = m.header.uid.unwrap();
                ben_put_bytes(&mut inner, bytes_of_id().as_slice(), uid.bid.as_slice());
                let p4 = pack_nodes(&m.nodes, AddressTypes::Ipv4);
                if p4.len() > 0 {
                    ben_put_bytes(&mut inner, bytes_of_nodes().as_slice(), p4.as_slice());
                }
                let p6 = pack_nodes(&m.nodes, AddressTypes::Ipv6);
                if p6.len() > 0 {
                    ben_put_bytes(&mut inner, bytes_of_nodes6().as_slice(), p6.as_slice());
                }
                ben_put_dict(&mut ben, bytes_of_r().as_slice(), inner);
                match m.header.public {
                    Some(p) => ben_put_bytes(&mut ben, bytes_of_ip().as_slice(), pack_address(&p).as_slice()),
                    None => {},
                }
            },
            Message::ErrorResponse(m) => {
                let mut list = ben_list_new();
                assert(ben_items(list) =~= Seq::<(u8, Seq<u8>)>::empty());
                ben_list_push_number(&mut list, m.code);
                ben_list_push_bytes(&mut list, m.description.as_slice());
                assert(ben_items(list) =~= seq![(1u8, decimal_of(m.code as int)), (2u8, m.description@)]);
                ben_put_list(&mut ben, bytes_of_e().as_slice(), list);
                match m.header.public {
                    Some(p) => ben_put_bytes(&mut ben, bytes_of_ip().as_slice(), pack_address(&p).as_slice()),
                    None => {},
                }
            },
        }
        assert(ben_bytes(ben) =~= wire_bytes(*self));
        assert(ben_dicts(ben) =~= wire_dicts(*self));
        assert(ben_lists(ben) =~= wire_lists(*self));
        ben
    }
}


/// The transaction identifier carried by `t`: its first six bytes, zero-padded.
pub open spec fn tid_from(s: Seq<u8>) -> Seq<u8> {
    Seq::new(6, |i: int| if i < s.len() { s[i] } else { 0u8 })
}

/// The bytes under `key` of a dictionary, or nothing when it has none.
pub open spec fn entry_or_empty(d: Map<Seq<u8>, Seq<u8>>, key: Seq<u8>) -> Seq<u8> {
    if d.contains_key(key) {
        d[key]
    } else {
        Seq::empty()
    }
}

/// The entries of `d` that a message of this kind and method needs are there: the
/// transaction identifier; for requests and responses the body with a 20-byte
/// identifier, and a 20-byte target for a `find_node` request; for an error the list
/// of an `i32` code and a byte-string description.
pub open spec fn decodable(kind: MessageType, method: Option<Method>, o: BencodeObject) -> bool {
    &&& ben_bytes(o).contains_key(key_t())
    &&& match kind {
        MessageType::ReqMsg => {
            &&& method is Some
            &&& ben_dicts(o).contains_key(key_a())
            &&& ben_dicts(o)[key_a()].contains_key(key_id())
            &&& ben_dicts(o)[key_a()][key_id()].len() >= ID_LENGTH
            &&& method == Some(Method::FindNode) ==> ben_dicts(o)[key_a()].contains_key(key_target())
                && ben_dicts(o)[key_a()][key_target()].len() >= ID_LENGTH
        },
        MessageType::RspMsg => {
            &&& method is Some
            &&& ben_dicts(o).contains_key(key_r())
            &&& ben_dicts(o)[key_r()].contains_key(key_id())
            &&& ben_dicts(o)[key_r()][key_id()].len() >= ID_LENGTH
        },
        MessageType::ErrMsg => {
            &&& ben_lists(o).contains_key(key_e())
            &&& ben_lists(o)[key_e()].len() >= 2
            &&& ben_lists(o)[key_e()][0].0 == 1
            &&& exists|v: i32| #[trigger] decimal_of(v as int) == ben_lists(o)[key_e()][0].1
            &&& ben_lists(o)[key_e()][1].0 == 2
        },
    }
}

/// The observed address in `ip`, when it is a compact IPv4 or IPv6 endpoint.
pub open spec fn public_from(bytes: Map<Seq<u8>, Seq<u8>>, p: Option<SocketAddress>) -> bool {
    if bytes.contains_key(key_ip()) && (bytes[key_ip()].len() == 6 || bytes[key_ip()].len() == 18) {
        p is Some && reads_address(bytes[key_ip()], 0, bytes[key_ip()].len() == 18, p->0)
    } else {
        p is None
    }
}

/// `ns` are the nodes read from the compact IPv4 nodes `b4` followed by the compact
/// IPv6 nodes `b6`.
pub open spec fn nodes_from(b4: Seq<u8>, b6: Seq<u8>, ns: Seq<Node>) -> bool {
    let n4 = b4.len() as int / node_length(AddressTypes::Ipv4);
    let n6 = b6.len() as int / node_length(AddressTypes::Ipv6);
    &&& ns.len() == n4 + n6
    &&& forall|i: int| 0 <= i < n4 ==> reads_node(b4, i * node_length(AddressTypes::Ipv4), AddressTypes::Ipv4, #[trigger] ns[i])
    &&& forall|i: int| n4 <= i < n4 + n6 ==> reads_node(b6, (i - n4) * node_length(AddressTypes::Ipv6), AddressTypes::Ipv6, #[trigger] ns[i])
}

/// `m` is what `decode` reads from `o` for this kind and method.
pub open spec fn decoded(kind: MessageType, method: Option<Method>, o: BencodeObject, m: Message) -> bool {
    let h = m.spec_header();
    let bytes = ben_bytes(o);
    &&& m.spec_type() == kind
    &&& kind != MessageType::ErrMsg ==> m.spec_method() == method
    &&& h.tid@ == tid_from(bytes[key_t()])
    &&& h.destination is None
    &&& kind == MessageType::ReqMsg ==> h.public is None
    &&& kind != MessageType::ReqMsg ==> public_from(bytes, h.public)
    &&& kind == MessageType::ReqMsg ==> h.uid is Some && h.uid->0@ == ben_dicts(o)[key_a()][key_id()].take(20)
    &&& kind == MessageType::RspMsg ==> h.uid is Some && h.uid->0@ == ben_dicts(o)[key_r()][key_id()].take(20)
    &&& kind == MessageType::ErrMsg ==> h.uid is None
    &&& match m {
        Message::FindNodeRequest(f) => f.target is Some && f.target->0@ == ben_dicts(o)[key_a()][key_target()].take(20),
        Message::FindNodeResponse(f) => nodes_from(
            entry_or_empty(ben_dicts(o)[key_r()], key_nodes()),
            entry_or_empty(ben_dicts(o)[key_r()], key_nodes6()),
            f.nodes@,
        ),
        Message::ErrorResponse(e) => decimal_of(e.code as int) == ben_lists(o)[key_e()][0].1
            && e.description@ == ben_lists(o)[key_e()][1].1,
        _ => true,
    }
}

/// The transaction identifier of a frame: the first six bytes of `t`, zero-padded.
pub fn transaction_id(o: &BencodeObject) -> (r: Option<[u8; 6]>)
    ensures
        r is Some == ben_bytes(*o).contains_key(key_t()),
        r is Some ==> r->0@ == tid_from(ben_bytes(*o)[key_t()]),
{
    match ben_get_bytes(o, bytes_of_t().as_slice()) {
        Some(t) => {
            let mut tid: [u8; 6] = [0u8; 6];
            let mut i: usize = 0;
            while i < TID_LENGTH && i < t.len()
                invariant
                    i <= TID_LENGTH,
                    i <= t@.len(),
                    tid@.len() == 6,
                    forall|k: int| 0 <= k < i ==> tid@[k] == t@[k],
                    forall|k: int| i <= k < 6 ==> tid@[k] == 0u8,
                decreases TID_LENGTH - i,
            {
                tid[i] = t[i];
                i = i + 1;
            }
            assert(tid@ =~= tid_from(t@));
            Some(tid)
        },
        None => None,
    }
}

/// The identifier under `key` of `d`: the first 20 bytes, when there are that many.
fn read_uid(d: &BencodeObject, key: &[u8]) -> (r: Option<UID>)
    ensures
        r is Some == (ben_bytes(*d).contains_key(key@) && ben_bytes(*d)[key@].len() >= ID_LENGTH),
        r is Some ==> r->0@ == ben_bytes(*d)[key@].take(20),
{
    match ben_get_bytes(d, key) {
        Some(b) => {
            if b.len() < ID_LENGTH {
                return None;
            }
            let mut bid: [u8; 20] = [0u8; 20];
            let mut i: usize = 0;
            while i < ID_LENGTH
                invariant
                    i <= ID_LENGTH,
                    b@.len() >= ID_LENGTH,
                    bid@.len() == 20,
                    forall|k: int| 0 <= k < i ==> bid@[k] == b@[k],
                decreases ID_LENGTH - i,
            {
                bid[i] = b[i];
                i = i + 1;
            }
            let u = UID { bid };
            assert(u@ =~= b@.take(20));
            Some(u)
        },
        None => None,
    }
}

/// The observed address under `ip`, if it is a compact endpoint.
fn read_public(o: &BencodeObject) -> (r: Option<SocketAddress>)
    ensures
        public_from(ben_bytes(*o), r),
{
    match ben_get_bytes(o, bytes_of_ip().as_slice()) {
        Some(b) => unpack_address(b.as_slice()),
        None => None,
    }
}

impl Message {
    /// Reads a message of the given kind (and method, for requests and responses) from
    /// a frame; a frame that lacks what the message needs is a protocol error.
    pub fn decode(kind: MessageType, method: Option<Method>, o: &BencodeObject) -> (r: Result<Message, MessageException>)
        ensures
            r is Ok == decodable(kind, method, *o),
            r is Ok ==> decoded(kind, method, *o, r->Ok_0) && r->Ok_0.spec_header().origin is None,
            r is Err ==> r->Err_0.code == PROTOCOL_ERROR && r->Err_0.message@ == error_text(PROTOCOL_ERROR),
    {
        let tid = match transaction_id(o) {
            Some(t) => t,
            None => return Err(MessageException::protocol()),
        };
        let mut header = Header::new(tid);
        match kind {
            MessageType::ReqMsg => {
                let m = match method {
                    Some(m) => m,
                    None => return Err(MessageException::protocol()),
                };
                let a = match ben_get_dict(o, bytes_of_a().as_slice()) {
                    Some(a) => a,
                    None => return Err(MessageException::protocol()),
                };
                let uid = match read_uid(&a, bytes_of_id().as_slice()) {
                    Some(u) => u,
                    None => return Err(MessageException::protocol()),
                };
                header.uid = Some(uid);
                match m {
                    Method::Ping => Ok(Message::PingRequest(PingRequest { header })),
                    Method::FindNode => {
                        let target = match read_uid(&a, bytes_of_target().as_slice()) {
                            Some(u) => u,
                            None => return Err(MessageException::protocol()),
                        };
                        Ok(Message::FindNodeRequest(FindNodeRequest { header, target: Some(target) }))
                    },
                }
            },
            MessageType::RspMsg => {
                let m = match method {
                    Some(m) => m,
                    None => return Err(MessageException::protocol()),
                };
                let body = match ben_get_dict(o, bytes_of_r().as_slice()) {
                    Some(b) => b,
                    None => return Err(MessageException::protocol()),
                };
                let uid = match read_uid(&body, bytes_of_id().as_slice()) {
                    Some(u) => u,
                    None => return Err(MessageException::protocol()),
                };
                header.uid = Some(uid);
                header.public = read_public(o);
                match m {
                    Method::Ping => Ok(Message::PingResponse(PingResponse { header })),
                    Method::FindNode => {
                        let b4 = match ben_get_bytes(&body, bytes_of_nodes().as_slice()) {
                            Some(b) => b,
                            None => Vec::new(),
                        };
                        let b6 = match ben_get_bytes(&body, bytes_of_nodes6().as_slice()) {
                            Some(b) => b,
                            None => Vec::new(),
                        };
                        let mut nodes = unpack_nodes(b4.as_slice(), AddressTypes::Ipv4);
                        let ghost n4 = nodes@;
                        let mut more = unpack_nodes(b6.as_slice(), AddressTypes::Ipv6);
                        let ghost n6 = more@;
                        nodes.append(&mut more);
                        proof {
                            assert(b4@ == entry_or_empty(ben_bytes(body), key_nodes()));
                            assert(b6@ == entry_or_empty(ben_bytes(body), key_nodes6()));
                            assert(nodes@ == n4 + n6);
                            let c4 = n4.len() as int;
                            assert forall|i: int| c4 <= i < c4 + n6.len() implies reads_node(b6@, (i - c4) * node_length(AddressTypes::Ipv6), AddressTypes::Ipv6, #[trigger] nodes@[i]) by {
                                assert(nodes@[i] == n6[i - c4]);
                            }
                            assert forall|i: int| 0 <= i < c4 implies reads_node(b4@, i * node_length(AddressTypes::Ipv4), AddressTypes::Ipv4, #[trigger] nodes@[i]) by {
                                assert(nodes@[i] == n4[i]);
                            }
                        }
                        Ok(Message::FindNodeResponse(FindNodeResponse { header, nodes }))
                    },
                }
            },
            MessageType::ErrMsg => {
                let list = match ben_get_list(o, bytes_of_e().as_slice()) {
                    Some(l) => l,
                    None => return Err(MessageException::protocol()),
                };
                if ben_list_len(&list) < 2 {
                    return Err(MessageException::protocol());
                }
                let text = match ben_list_number(&list, 0) {
                    Some(t) => t,
                    None => return Err(MessageException::protocol()),
                };
                let ghost items = ben_items(list);
                let digits = inner_text(&text);
                proof {
                    assert(digits@ =~= items[0].1);
                }
                let code = match parse_i32(digits.as_slice()) {
                    Some(c) => c,
                    None => return Err(MessageException::protocol()),
                };
                let description = match ben_list_bytes(&list, 1) {
                    Some(d) => d,
                    None => return Err(MessageException::protocol()),
                };
                header.public = read_public(o);
                Ok(Message::ErrorResponse(ErrorResponse { header, code, description }))
            },
        }
    }
}

/// The bytes of `t` without its first and last byte.
fn inner_text(t: &Vec<u8>) -> (r: Vec<u8>)
    requires
        t@.len() >= 2,
    ensures
        r@ == t@.subrange(1, t@.len() - 1),
{
    let mut out: Vec<u8> = Vec::new();
    let mut i: usize = 1;
    let n = t.len();
    while i < n - 1
        invariant
            n == t@.len(),
            1 <= i <= t@.len() - 1,
            out@ =~= t@.subrange(1, i as int),
        decreases t@.len() - i,
    {
        out.push(t[i]);
        i = i + 1;
    }
    out
}


/// `a` carries what the frame of `b` carries: kind, method, transaction identifier,
/// observed address, sender identifier (but on an error frame), target, nodes (by
/// identifier and endpoint), code and description.
pub open spec fn same_on_wire(a: Message, b: Message) -> bool {
    let ha = a.spec_header();
    let hb = b.spec_header();
    &&& a.spec_type() == b.spec_type()
    &&& a.spec_method() == b.spec_method()
    &&& ha.tid@ == hb.tid@
    &&& ha.public == hb.public
    &&& b.spec_type() != MessageType::ErrMsg ==> ha.uid is Some && hb.uid is Some && ha.uid->0@ == hb.uid->0@
    &&& match (a, b) {
        (Message::FindNodeRequest(x), Message::FindNodeRequest(y)) => x.target is Some && y.target is Some && x.target->0@ == y.target->0@,
        (Message::FindNodeResponse(x), Message::FindNodeResponse(y)) => x.nodes@.len() == y.nodes@.len()
            && forall|i: int| 0 <= i < y.nodes@.len() ==> same_node(#[trigger] x.nodes@[i], y.nodes@[i]),
        (Message::ErrorResponse(x), Message::ErrorResponse(y)) => x.code == y.code && x.description@ == y.description@,
        _ => true,
    }
}

/// Length of the run of IPv4 nodes at the front of `ns`, from position `i`.
spec fn v4_run_end(ns: Seq<Node>, i: int) -> int
    decreases ns.len() - i,
{
    if i < 0 || i >= ns.len() || ns[i].address.ip.family() != AddressTypes::Ipv4 {
        i
    } else {
        v4_run_end(ns, i + 1)
    }
}

proof fn lemma_v4_run(ns: Seq<Node>, i: int)
    requires
        0 <= i <= ns.len(),
        forall|k: int| 0 <= k < i ==> (#[trigger] ns[k]).address.ip.family() == AddressTypes::Ipv4,
    ensures
        i <= v4_run_end(ns, i) <= ns.len(),
        forall|k: int| 0 <= k < v4_run_end(ns, i) ==> (#[trigger] ns[k]).address.ip.family() == AddressTypes::Ipv4,
        v4_run_end(ns, i) < ns.len() ==> ns[v4_run_end(ns, i)].address.ip.family() != AddressTypes::Ipv4,
    decreases ns.len() - i,
{
    if i < ns.len() && ns[i].address.ip.family() == AddressTypes::Ipv4 {
        lemma_v4_run(ns, i + 1);
    }
}

proof fn lemma_round_trip_nodes(ns: Seq<Node>, r: Seq<Node>, b4: Seq<u8>, b6: Seq<u8>)
    requires
        v4_first(ns),
        b4 == spec_pack_nodes(ns, AddressTypes::Ipv4),
        b6 == spec_pack_nodes(ns, AddressTypes::Ipv6),
        nodes_from(b4, b6, r),
    ensures
        r.len() == ns.len(),
        forall|i: int| 0 <= i < ns.len() ==> same_node(#[trigger] r[i], ns[i]),
{
    lemma_v4_run(ns, 0);
    let k = v4_run_end(ns, 0);
    let pre = ns.take(k);
    let suf = ns.skip(k);
    assert(ns =~= pre + suf);
    assert forall|i: int| 0 <= i < suf.len() implies (#[trigger] suf[i]).address.ip.family() == AddressTypes::Ipv6 by {
        assert(suf[i] == ns[k + i]);
        if ns[k + i].address.ip.family() == AddressTypes::Ipv4 {
            assert(ns[k].address.ip.family() == AddressTypes::Ipv4);
        }
        match ns[k + i].address.ip {
            crate::net::IpAddress::V4(_) => {},
            crate::net::IpAddress::V6(_) => {},
        }
    }
    assert forall|i: int| 0 <= i < pre.len() implies (#[trigger] pre[i]).address.ip.family() == AddressTypes::Ipv4 by {
        assert(pre[i] == ns[i]);
    }
    lemma_pack_nodes_append(pre, suf, AddressTypes::Ipv4);
    lemma_pack_nodes_append(pre, suf, AddressTypes::Ipv6);
    lemma_pack_nodes_other(suf, AddressTypes::Ipv4);
    lemma_pack_nodes_other(pre, AddressTypes::Ipv6);
    assert(b4 =~= spec_pack_nodes(pre, AddressTypes::Ipv4));
    assert(b6 =~= spec_pack_nodes(suf, AddressTypes::Ipv6));
    let n4 = b4.len() as int / node_length(AddressTypes::Ipv4);
    let n6 = b6.len() as int / node_length(AddressTypes::Ipv6);
    let r4 = r.take(n4);
    let r6 = r.skip(n4);
    assert forall|i: int| 0 <= i < r4.len() implies reads_node(b4, i * node_length(AddressTypes::Ipv4), AddressTypes::Ipv4, #[trigger] r4[i]) by {
        assert(r4[i] == r[i]);
    }
    assert forall|i: int| 0 <= i < r6.len() implies reads_node(b6, i * node_length(AddressTypes::Ipv6), AddressTypes::Ipv6, #[trigger] r6[i]) by {
        assert(r6[i] == r[n4 + i]);
        assert((n4 + i) - n4 == i);
    }
    lemma_nodes_round_trip(pre, AddressTypes::Ipv4, r4);
    lemma_nodes_round_trip(suf, AddressTypes::Ipv6, r6);
    assert forall|i: int| 0 <= i < ns.len() implies same_node(#[trigger] r[i], ns[i]) by {
        if i < k {
            assert(r[i] == r4[i]);
            assert(ns[i] == pre[i]);
        } else {
            assert(r[i] == r6[i - k]);
            assert(ns[i] == suf[i - k]);
        }
    }
}

/// Decoding the frame of an encodable message gives the message back: the frame is
/// decodable, and what is read from it carries what the message carried. A
/// `find_node` response must list its IPv4 nodes first, as the frame keeps the two
/// families apart, and a request carries no observed address, as its frame has none.
pub proof fn lemma_message_round_trip(m: Message, o: BencodeObject, r: Message)
    requires
        m.encodable(),
        encodes(m, o),
        m.spec_type() == MessageType::ReqMsg ==> m.spec_header().public is None,
        m matches Message::FindNodeResponse(f) ==> v4_first(f.nodes@),
        decoded(m.spec_type(), m.spec_method(), o, r),
    ensures
        decodable(m.spec_type(), m.spec_method(), o),
        same_on_wire(r, m),
{
    lemma_keys_distinct();
    let h = m.spec_header();
    let hr = r.spec_header();
    assert(ben_bytes(o)[key_t()] == h.tid@);
    assert(tid_from(h.tid@) =~= h.tid@);
    match m {
        Message::PingRequest(x) => {
            assert(h.uid->0@.take(20) =~= h.uid->0@);
        },
        Message::FindNodeRequest(x) => {
            assert(h.uid->0@.take(20) =~= h.uid->0@);
            assert(x.target->0@.take(20) =~= x.target->0@);
        },
        Message::PingResponse(x) => {
            assert(h.uid->0@.take(20) =~= h.uid->0@);
            lemma_public_round_trip(m, o, hr.public);
        },
        Message::FindNodeResponse(x) => {
            assert(h.uid->0@.take(20) =~= h.uid->0@);
            lemma_public_round_trip(m, o, hr.public);
            let body = ben_dicts(o)[key_r()];
            let p4 = spec_pack_nodes(x.nodes@, AddressTypes::Ipv4);
            let p6 = spec_pack_nodes(x.nodes@, AddressTypes::Ipv6);
            assert(entry_or_empty(body, key_nodes()) =~= p4);
            assert(entry_or_empty(body, key_nodes6()) =~= p6);
            match r {
                Message::FindNodeResponse(y) => {
                    lemma_round_trip_nodes(x.nodes@, y.nodes@, p4, p6);
                },
                _ => {},
            }
        },
        Message::ErrorResponse(x) => {
            let items = ben_lists(o)[key_e()];
            assert(items == seq![(1u8, decimal_of(x.code as int)), (2u8, x.description@)]);
            assert(decimal_of(x.code as int) == items[0].1);
            lemma_public_round_trip(m, o, hr.public);
            match r {
                Message::ErrorResponse(y) => {
                    lemma_decimal_injective(y.code as int, x.code as int);
                },
                _ => {},
            }
        },
    }
}

proof fn lemma_public_round_trip(m: Message, o: BencodeObject, p: Option<SocketAddress>)
    requires
        m.spec_type() != MessageType::ReqMsg,
        encodes(m, o),
        public_from(ben_bytes(o), p),
    ensures
        p == m.spec_header().public,
{
    lemma_keys_distinct();
    match m.spec_header().public {
        Some(a) => {
            let b = spec_pack_address(a);
            assert(ben_bytes(o)[key_ip()] == b);
            match a.ip {
                crate::net::IpAddress::V4(_) => {},
                crate::net::IpAddress::V6(_) => {},
            }
            lemma_address_round_trip(a, p->0);
        },
        None => {
            assert(!ben_bytes(o).contains_key(key_ip()));
        },
    }
}


impl Message {
    /// Whether a `find_node` request names its target; other messages need none.
    pub fn has_target_if_needed(&self) -> (r: bool)
        ensures
            r == (self matches Message::FindNodeRequest(f) ==> f.target is Some),
    {
        match self {
            Message::FindNodeRequest(f) => f.target.is_some(),
            _ => true,
        }
    }

    /// Sets the sender's identifier.
    pub fn set_uid(&mut self, uid: UID)
        ensures
            final(self).spec_header() == (Header { uid: Some(uid), ..old(self).spec_header() }),
            final(self).same_body(*old(self)),
    {
        match self {
            Message::PingRequest(m) => m.header.uid = Some(uid),
            Message::PingResponse(m) => m.header.uid = Some(uid),
            Message::FindNodeRequest(m) => m.header.uid = Some(uid),
            Message::FindNodeResponse(m) => m.header.uid = Some(uid),
            Message::ErrorResponse(m) => m.header.uid = Some(uid),
        }
    }

    /// Sets the transaction identifier.
    pub fn set_transaction_id(&mut self, tid: [u8; 6])
        ensures
            final(self).spec_header() == (Header { tid, ..old(self).spec_header() }),
            final(self).same_body(*old(self)),
    {
        match self {
            Message::PingRequest(m) => m.header.tid = tid,
            Message::PingResponse(m) => m.header.tid = tid,
            Message::FindNodeRequest(m) => m.header.tid = tid,
            Message::FindNodeResponse(m) => m.header.tid = tid,
            Message::ErrorResponse(m) => m.header.tid = tid,
        }
    }

    /// Sets where the message came from.
    pub fn set_origin(&mut self, origin: SocketAddress)
        ensures
            final(self).spec_header() == (Header { origin: Some(origin), ..old(self).spec_header() }),
            final(self).same_body(*old(self)),
    {
        match self {
            Message::PingRequest(m) => m.header.origin = Some(origin),
            Message::PingResponse(m) => m.header.origin = Some(origin),
            Message::FindNodeRequest(m) => m.header.origin = Some(origin),
            Message::FindNodeResponse(m) => m.header.origin = Some(origin),
            Message::ErrorResponse(m) => m.header.origin = Some(origin),
        }
    }

    /// The two messages are of one variant with the same fields besides the header.
    pub open spec fn same_body(&self, other: Message) -> bool {
        match (*self, other) {
            (Message::PingRequest(_), Message::PingRequest(_)) => true,
            (Message::PingResponse(_), Message::PingResponse(_)) => true,
            (Message::FindNodeRequest(a), Message::FindNodeRequest(b)) => a.target == b.target,
            (Message::FindNodeResponse(a), Message::FindNodeResponse(b)) => a.nodes@ == b.nodes@,
            (Message::ErrorResponse(a), Message::ErrorResponse(b)) => a.code == b.code && a.description@ == b.description@,
            _ => false,
        }
    }

    /// The method of a request or response.
    pub fn get_method(&self) -> (r: Option<Method>)
        ensures
            r == self.spec_method(),
    {
        match self {
            Message::PingRequest(_) | Message::PingResponse(_) => Some(Method::Ping),
            Message::FindNodeRequest(_) | Message::FindNodeResponse(_) => Some(Method::FindNode),
            Message::ErrorResponse(_) => None,
        }
    }
}

/// An error frame for transaction `tid`, sent back to `to`.
pub fn error_reply(tid: [u8; 6], to: SocketAddress, e: MessageException) -> (r: Message)
    ensures
        r matches Message::ErrorResponse(x) && x.code == e.code && x.description@ == e.message@
            && x.header == (Header { tid, uid: None, public: Some(to), destination: Some(to), origin: None }),
{
    Message::ErrorResponse(ErrorResponse {
        header: Header { tid, uid: None, public: Some(to), destination: Some(to), origin: None },
        code: e.code,
        description: e.message,
    })
}


impl FindNodeRequest {
    /// A request with transaction identifier `tid` and no target yet.
    pub fn new(tid: [u8; 6]) -> (r: FindNodeRequest)
        ensures
            r.header == Header::spec_new(tid),
            r.target is None,
    {
        FindNodeRequest { header: Header::new(tid), target: None }
    }

    pub fn set_target(&mut self, target: UID)
        ensures
            final(self).header == old(self).header,
            final(self).target == Some(target),
    {
        self.target = Some(target);
    }

    pub fn get_target(&self) -> (r: Option<UID>)
        ensures
            r == self.target,
    {
        self.target
    }
}

impl FindNodeResponse {
    /// A response with transaction identifier `tid` and no nodes yet.
    pub fn new(tid: [u8; 6]) -> (r: FindNodeResponse)
        ensures
            r.header == Header::spec_new(tid),
            r.nodes@.len() == 0,
    {
        FindNodeResponse { header: Header::new(tid), nodes: Vec::new() }
    }

    pub fn add_node(&mut self, node: Node)
        ensures
            final(self).header == old(self).header,
            final(self).nodes@ == old(self).nodes@.push(node),
    {
        self.nodes.push(node);
    }

    pub fn get_node(&self, i: usize) -> (r: Option<Node>)
        ensures
            i < self.nodes@.len() ==> r == Some(self.nodes@[i as int]),
            i >= self.nodes@.len() ==> r is None,
    {
        if i < self.nodes.len() {
            Some(self.nodes[i])
        } else {
            None
        }
    }

    pub fn remove_node(&mut self, i: usize)
        requires
            i < old(self).nodes@.len(),
        ensures
            final(self).header == old(self).header,
            final(self).nodes@ == old(self).nodes@.remove(i as int),
    {
        self.nodes.remove(i);
    }

    /// Whether a record of the same peer as `node` is listed.
    pub fn contains_node(&self, node: &Node) -> (r: bool)
        ensures
            r == exists|k: int| 0 <= k < self.nodes@.len() && same_node(#[trigger] self.nodes@[k], *node),
    {
        let mut i: usize = 0;
        while i < self.nodes.len()
            invariant
                i <= self.nodes@.len(),
                forall|k: int| 0 <= k < i ==> !same_node(#[trigger] self.nodes@[k], *node),
            decreases self.nodes@.len() - i,
        {
            if self.nodes[i] == *node {
                return true;
            }
            i = i + 1;
        }
        false
    }

    pub fn has_nodes(&self) -> (r: bool)
        ensures
            r == (self.nodes@.len() > 0),
    {
        self.nodes.len() > 0
    }

    /// Appends `nodes`.
    pub fn add_nodes(&mut self, nodes: Vec<Node>)
        ensures
            final(self).header == old(self).header,
            final(self).nodes@ == old(self).nodes@ + nodes@,
    {
        let mut i: usize = 0;
        let ghost start = self.nodes@;
        while i < nodes.len()
            invariant
                i <= nodes@.len(),
                self.header == old(self).header,
                start == old(self).nodes@,
                self.nodes@ == start + nodes@.take(i as int),
            decreases nodes@.len() - i,
        {
            self.nodes.push(nodes[i]);
            assert(start + nodes@.take(i + 1) =~= (start + nodes@.take(i as int)).push(nodes@[i as int]));
            i = i + 1;
        }
        assert(nodes@.take(nodes@.len() as int) =~= nodes@);
    }

    pub fn get_all_nodes(&self) -> (r: Vec<Node>)
        ensures
            r@ == self.nodes@,
    {
        let mut out: Vec<Node> = Vec::new();
        let mut i: usize = 0;
        while i < self.nodes.len()
            invariant
                i <= self.nodes@.len(),
                out@ == self.nodes@.take(i as int),
            decreases self.nodes@.len() - i,
        {
            out.push(self.nodes[i]);
            assert(self.nodes@.take(i + 1) =~= self.nodes@.take(i as int).push(self.nodes@[i as int]));
            i = i + 1;
        }
        assert(self.nodes@.take(self.nodes@.len() as int) =~= self.nodes@);
        out
    }

    fn nodes_of(&self, t: AddressTypes) -> (r: Vec<Node>)
        ensures
            r@ == self.nodes@.filter(|n: Node| n.address.ip.family() == t),
    {
        let ghost keep = |n: Node| n.address.ip.family() == t;
        let mut out: Vec<Node> = Vec::new();
        let mut i: usize = 0;
        while i < self.nodes.len()
            invariant
                i <= self.nodes@.len(),
                keep == (|n: Node| n.address.ip.family() == t),
                out@ == self.nodes@.take(i as int).filter(keep),
            decreases self.nodes@.len() - i,
        {
            let n = self.nodes[i];
            proof {
                assert(self.nodes@.take(i + 1).drop_last() =~= self.nodes@.take(i as int));
                reveal(Seq::filter);
            }
            if n.address.ip.address_type() == t {
                out.push(n);
            }
            i = i + 1;
        }
        assert(self.nodes@.take(self.nodes@.len() as int) =~= self.nodes@);
        out
    }

    /// The IPv4 nodes, in order.
    pub fn get_all_ipv4_nodes(&self) -> (r: Vec<Node>)
        ensures
            r@ == self.nodes@.filter(|n: Node| n.address.ip.family() == AddressTypes::Ipv4),
    {
        self.nodes_of(AddressTypes::Ipv4)
    }

    /// The IPv6 nodes, in order.
    pub fn get_all_ipv6_nodes(&self) -> (r: Vec<Node>)
        ensures
            r@ == self.nodes@.filter(|n: Node| n.address.ip.family() == AddressTypes::Ipv6),
    {
        self.nodes_of(AddressTypes::Ipv6)
    }
}

impl ErrorResponse {
    /// An error frame with transaction identifier `tid`, code 0 and no description.
    pub fn new(tid: [u8; 6]) -> (r: ErrorResponse)
        ensures
            r.header == Header::spec_new(tid),
            r.code == 0,
            r.description@.len() == 0,
    {
        ErrorResponse { header: Header::new(tid), code: 0, description: Vec::new() }
    }

    pub fn set_code(&mut self, code: i32)
        ensures
            final(self).header == old(self).header,
            final(self).code == code,
            final(self).description == old(self).description,
    {
        self.code = code;
    }

    pub fn get_code(&self) -> (r: i32)
        ensures
            r == self.code,
    {
        self.code
    }

    pub fn set_description(&mut self, description: Vec<u8>)
        ensures
            final(self).header == old(self).header,
            final(self).code == old(self).code,
            final(self).description@ == description@,
    {
        self.description = description;
    }

    pub fn get_description(&self) -> (r: &Vec<u8>)
        ensures
            r@ == self.description@,
    {
        &self.description
    }
}

} // verus!
