use vstd::prelude::*;
use rlibbencode::variables::bencode_object::BencodeObject;
use crate::bencode::{ben_bytes, ben_dicts, ben_get_bytes};
use crate::messages::{
    encodes, error_text, method_unknown_text, Message, MessageType, Method, MessageException, Header, PingResponse, FindNodeResponse,
    transaction_id, error_reply, decodable, decoded, key_q, key_y, tid_from, key_t, key_r, key_id, key_a, key_ip,
    GENERIC_ERROR, SERVER_ERROR, METHOD_UNKNOWN, PROTOCOL_ERROR,
};
use crate::net::{IpAddress, SocketAddress, is_bogon, spec_bogon};
use crate::node::{Node, same_node};
use crate::routing::{RoutingTable, KADEMLIA_BUCKET_SIZE, insert_effect, closest_of};
use crate::throttle::{SpamThrottle, BURST};
use crate::tracker::{Call, ResponseTracker, is_stalled};
use crate::uid::UID;

verus! {

/// Milliseconds between two decay ticks.
pub const DECAY_PERIOD: u64 = 1000;

/// What to do with a request.
pub enum RequestAction {
    /// Send this frame back: an error.
    Reply(Message),
    /// Hand the decoded request, from this node, to the listeners of its method.
    Dispatch(Message, Node),
    /// The frame has no transaction identifier: drop it.
    Ignore,
}

/// What to do with a response or an error frame.
pub enum ResponseAction<T> {
    /// Drop it with this error code.
    Drop(i32),
    /// Deliver the message to the call's callback, about this node.
    Deliver(Call<T>, Message, Option<Node>),
}

/// Why a message could not be sent.
#[derive(Copy, Clone, Debug, PartialEq, Eq, Structural)]
pub enum SendError {
    NoDestination,
    BogonDestination,
    MissingTarget,
}

/// The RPC server's state: its call tracker, its two throttles and its decisions.
/// The socket and the listeners live with the caller.
pub struct Server<T> {
    pub running: bool,
    pub allow_bogon: bool,
    pub tracker: ResponseTracker<T>,
    pub sender_throttle: SpamThrottle,
    pub receiver_throttle: SpamThrottle,
    pub last_decay_time: u64,
    pub handled: Vec<Method>,
}

impl<T> Server<T> {
    pub open spec fn wf(&self) -> bool {
        &&& self.tracker.wf()
        &&& self.sender_throttle.wf()
        &&& self.receiver_throttle.wf()
    }

    /// A stopped server with no calls and no listeners, its clock at `now`.
    pub fn new(now: u64) -> (r: Server<T>)
        ensures
            r.wf(),
            !r.running,
            !r.allow_bogon,
            r.handled@.len() == 0,
            r.last_decay_time == now,
            forall|t: Seq<u8>| #[trigger] r.tracker.lookup(t) is None,
    {
        Server {
            running: false,
            allow_bogon: false,
            tracker: ResponseTracker::new(),
            sender_throttle: SpamThrottle::new(now),
            receiver_throttle: SpamThrottle::new(now),
            last_decay_time: now,
            handled: Vec::new(),
        }
    }

    /// Marks the server running; refused when it already runs.
    pub fn start(&mut self) -> (r: bool)
        ensures
            r == !old(self).running,
            final(self).running,
            final(self).allow_bogon == old(self).allow_bogon,
            final(self).tracker == old(self).tracker,
            final(self).sender_throttle == old(self).sender_throttle,
            final(self).receiver_throttle == old(self).receiver_throttle,
            final(self).handled == old(self).handled,
            final(self).last_decay_time == old(self).last_decay_time,
    {
        if self.running {
            return false;
        }
        self.running = true;
        true
    }

    /// Marks the server stopped.
    pub fn stop(&mut self)
        ensures
            *final(self) == (Server { running: false, ..*old(self) }),
    {
        self.running = false;
    }

    /// Whether the server runs.
    pub fn is_running(&self) -> (r: bool)
        ensures
            r == self.running,
    {
        self.running
    }

    /// Whether bogon endpoints are let through.
    pub fn is_allow_bogon(&self) -> (r: bool)
        ensures
            r == self.allow_bogon,
    {
        self.allow_bogon
    }

    /// Lets bogon endpoints through, or not.
    pub fn set_allow_bogon(&mut self, allow_bogon: bool)
        ensures
            *final(self) == (Server { allow_bogon, ..*old(self) }),
    {
        self.allow_bogon = allow_bogon;
    }

    pub open spec fn handles(&self, m: Method) -> bool {
        self.handled@.contains(m)
    }

    /// Records that listeners are registered for method `m`.
    pub fn register_request_listener(&mut self, m: Method)
        ensures
            *final(self) == (Server { handled: final(self).handled, ..*old(self) }),
            forall|x: Method| #[trigger] final(self).handles(x) == (old(self).handles(x) || x == m),
    {
        let ghost before = self.handled@;
        self.handled.push(m);
        assert forall|x: Method| #[trigger] self.handled@.contains(x) == (before.contains(x) || x == m) by {
            if before.contains(x) {
                let i = choose|i: int| 0 <= i < before.len() && before[i] == x;
                assert(self.handled@[i] == x);
            }
            if self.handled@.contains(x) && x != m {
                let i = choose|i: int| 0 <= i < self.handled@.len() && self.handled@[i] == x;
                assert(before[i] == x);
            }
            if x == m {
                assert(self.handled@[before.len() as int] == m);
            }
        }
    }

    fn handles_method(&self, m: Method) -> (r: bool)
        ensures
            r == self.handles(m),
    {
        let mut i: usize = 0;
        while i < self.handled.len()
            invariant
                i <= self.handled@.len(),
                forall|k: int| 0 <= k < i ==> self.handled@[k] != m,
            decreases self.handled@.len() - i,
        {
            if self.handled[i] == m {
                return true;
            }
            i = i + 1;
        }
        false
    }

    /// Counts a datagram from `src` against the ingress throttle; true when it is to
    /// be processed: not throttled, and not from a bogon unless bogons are let through.
    pub fn accept_datagram(&mut self, src: &SocketAddress) -> (r: bool)
        requires
            old(self).wf(),
        ensures
            final(self).wf(),
            r == (old(self).receiver_throttle.count(src.ip) + 1 < BURST && (old(self).allow_bogon || !spec_bogon(*src))),
            final(self).tracker == old(self).tracker,
            final(self).sender_throttle == old(self).sender_throttle,
            final(self).allow_bogon == old(self).allow_bogon,
            final(self).handled == old(self).handled,
            forall|x| #[trigger] final(self).receiver_throttle.count(x) == if x == src.ip {
                if old(self).receiver_throttle.count(x) + 1 < BURST {
                    old(self).receiver_throttle.count(x) + 1
                } else {
                    BURST as nat
                }
            } else {
                old(self).receiver_throttle.count(x)
            },
    {
        if self.receiver_throttle.add_and_test(src.ip) {
            return false;
        }
        self.allow_bogon || !is_bogon(src)
    }

    /// The decisions on a request frame `o` from `src` at `now`: an unknown or
    /// unhandled method gets error 204, a malformed frame error 203; otherwise the
    /// sender joins the routing table and the request goes to its listeners.
    pub fn handle_request(&self, table: &mut RoutingTable, o: &BencodeObject, src: SocketAddress, now: u64) -> (r: RequestAction)
        requires
            old(table).wf(),
        ensures
            final(table).wf(),
            old(table).secure_only && old(table).all_secure() ==> final(table).all_secure(),
            final(table).uid == old(table).uid,
            !ben_bytes(*o).contains_key(key_t()) ==> r is Ignore && *final(table) == *old(table),
            ben_bytes(*o).contains_key(key_t()) ==> {
                let tid = tid_from(ben_bytes(*o)[key_t()]);
                let name = ben_bytes(*o)[key_q()];
                let known = ben_bytes(*o).contains_key(key_q()) && (name == Method::Ping.spec_name() || name == Method::FindNode.spec_name());
                let m = if name == Method::Ping.spec_name() { Method::Ping } else { Method::FindNode };
                &&& !known ==> *final(table) == *old(table) && is_error_reply(r, METHOD_UNKNOWN, tid, src)
                &&& known && !decodable(MessageType::ReqMsg, Some(m), *o) ==> *final(table) == *old(table)
                    && is_error_reply(r, PROTOCOL_ERROR, tid, src)
                &&& known && decodable(MessageType::ReqMsg, Some(m), *o) ==> exists|n: Node|
                    #[trigger] insert_effect(*old(table), *final(table), n, now)
                        && n.uid@ == ben_dicts(*o)[key_a()][key_id()].take(20) && n.address == src
                        && n.first_seen == 0 && n.last_seen == 0 && n.last_responded == 0 && n.stale_count == 0
                &&& known && decodable(MessageType::ReqMsg, Some(m), *o) && !self.handles(m)
                    ==> is_error_reply(r, METHOD_UNKNOWN, tid, src)
                &&& known && decodable(MessageType::ReqMsg, Some(m), *o) && self.handles(m)
                    ==> is_dispatch(r, m, src)
            },
    {
        let tid = match transaction_id(o) {
            Some(t) => t,
            None => return RequestAction::Ignore,
        };
        let unknown = MessageException { code: METHOD_UNKNOWN, message: method_unknown_text() };
        let name = match ben_get_bytes(o, crate::messages::bytes_of_q().as_slice()) {
            Some(n) => n,
            None => return RequestAction::Reply(error_reply(tid, src, unknown)),
        };
        let method = match Method::from_name(name.as_slice()) {
            Some(m) => m,
            None => return RequestAction::Reply(error_reply(tid, src, unknown)),
        };
        let mut msg = match Message::decode(MessageType::ReqMsg, Some(method), o) {
            Ok(m) => m,
            Err(e) => return RequestAction::Reply(error_reply(tid, src, e)),
        };
        msg.set_origin(src);
        let uid = match msg.header().uid {
            Some(u) => u,
            None => return RequestAction::Ignore,
        };
        let node = Node::new(uid, src);
        table.insert(node, now);
        if !self.handles_method(method) {
            return RequestAction::Reply(error_reply(tid, src, unknown));
        }
        RequestAction::Dispatch(msg, node)
    }
}

/// `r` sends back an error frame with this code for transaction `tid` to `src`.
pub open spec fn is_error_reply(r: RequestAction, code: i32, tid: Seq<u8>, src: SocketAddress) -> bool {
    match r {
        RequestAction::Reply(Message::ErrorResponse(e)) => e.code == code && e.description@ == error_text(code) && e.header.tid@ == tid
            && e.header.destination == Some(src) && e.header.public == Some(src),
        _ => false,
    }
}

/// `r` hands a request for method `m` from `src`, and its sender, to the listeners.
pub open spec fn is_dispatch(r: RequestAction, m: Method, src: SocketAddress) -> bool {
    match r {
        RequestAction::Dispatch(msg, n) => msg.spec_header().origin == Some(src) && msg.spec_method() == Some(m)
            && msg.spec_type() == MessageType::ReqMsg && msg.spec_header().uid is Some
            && n.uid@ == msg.spec_header().uid->0@ && n.address == src,
        _ => false,
    }
}



/// The reply owed once the listeners of a request have run: nothing when one of them
/// prevented the default, the response one of them set, or else error 204.
pub fn finish_request(request: &Message, response: Option<Message>, prevented: bool) -> (r: Option<Message>)
    requires
        request.spec_header().origin is Some,
    ensures
        prevented ==> r is None,
        !prevented && response is Some ==> r == response,
        !prevented && response is None ==> (r matches Some(Message::ErrorResponse(e)) && e.code == METHOD_UNKNOWN
            && e.description@ == error_text(METHOD_UNKNOWN)
            && e.header.tid == request.spec_header().tid && e.header.destination == request.spec_header().origin),
{
    if prevented {
        return None;
    }
    match response {
        Some(m) => Some(m),
        None => {
            let h = request.header();
            let to = h.origin.unwrap();
            Some(error_reply(h.tid, to, MessageException { code: METHOD_UNKNOWN, message: method_unknown_text() }))
        },
    }
}

/// The response to a `ping`: same transaction, sent back to the requester, telling it
/// the address it was seen at.
pub fn ping_handler(request: &Message) -> (r: Message)
    requires
        request.spec_header().origin is Some,
    ensures
        r matches Message::PingResponse(p) && p.header == (Header {
            tid: request.spec_header().tid,
            uid: None,
            public: request.spec_header().origin,
            destination: request.spec_header().origin,
            origin: None,
        }),
{
    let h = request.header();
    Message::PingResponse(PingResponse {
        header: Header { tid: h.tid, uid: None, public: h.origin, destination: h.origin, origin: None },
    })
}

/// `ns` without the records of the same peer as `n`, in order.
pub open spec fn without_node(ns: Seq<Node>, n: Node) -> Seq<Node>
    decreases ns.len(),
{
    if ns.len() == 0 {
        Seq::empty()
    } else {
        without_node(ns.drop_last(), n) + if same_node(ns.last(), n) {
            Seq::empty()
        } else {
            seq![ns.last()]
        }
    }
}

/// The `find_node` response to `request` listing `closest` but the requester itself.
pub fn find_node_reply(request: &Message, closest: &Vec<Node>, requester: &Node) -> (r: Message)
    requires
        request.spec_header().origin is Some,
    ensures
        r matches Message::FindNodeResponse(f) && f.header == (Header {
            tid: request.spec_header().tid,
            uid: None,
            public: request.spec_header().origin,
            destination: request.spec_header().origin,
            origin: None,
        }) && f.nodes@ == without_node(closest@, *requester),
{
    let h = request.header();
    let mut nodes: Vec<Node> = Vec::new();
    let mut i: usize = 0;
    while i < closest.len()
        invariant
            i <= closest@.len(),
            nodes@ == without_node(closest@.take(i as int), *requester),
        decreases closest@.len() - i,
    {
        assert(closest@.take(i + 1).drop_last() =~= closest@.take(i as int));
        let n = closest[i];
        if !(n == *requester) {
            nodes.push(n);
        }
        i = i + 1;
    }
    assert(closest@.take(closest@.len() as int) =~= closest@);
    Message::FindNodeResponse(FindNodeResponse {
        header: Header { tid: h.tid, uid: None, public: h.origin, destination: h.origin, origin: None },
        nodes,
    })
}

/// The response to a `find_node` request: the known-good nodes at `now` closest to its
/// target, but the requester itself, at most a bucket's worth of the Kademlia flavour.
pub fn find_node_handler(table: &RoutingTable, request: &Message, requester: &Node, now: u64) -> (r: Message)
    requires
        table.wf(),
        request.spec_header().origin is Some,
        request matches Message::FindNodeRequest(f) && f.target is Some,
    ensures
        r matches Message::FindNodeResponse(f) && f.header == (Header {
            tid: request.spec_header().tid,
            uid: None,
            public: request.spec_header().origin,
            destination: request.spec_header().origin,
            origin: None,
        }) && exists|c: Seq<Node>|
            #[trigger] closest_of(*table, target_of(*request), KADEMLIA_BUCKET_SIZE as int, now, c)
                && f.nodes@ == without_node(c, *requester),
{
    let target = match request {
        Message::FindNodeRequest(f) => f.target.unwrap(),
        _ => UID { bid: [0u8; 20] },
    };
    let closest = table.find_closest(&target, KADEMLIA_BUCKET_SIZE, now);
    assert(target_of(*request) == target@);
    assert(closest_of(*table, target_of(*request), KADEMLIA_BUCKET_SIZE as int, now, closest@));
    find_node_reply(request, &closest, requester)
}

/// The target of a `find_node` request.
pub open spec fn target_of(m: Message) -> Seq<u8> {
    match m {
        Message::FindNodeRequest(f) => f.target->0@,
        _ => Seq::empty(),
    }
}



/// A `find_node` request names its target.
pub open spec fn has_needed_target(m: Message) -> bool {
    m matches Message::FindNodeRequest(f) ==> f.target is Some
}

/// The kind of a frame, by its `y` entry.
pub fn message_type(o: &BencodeObject) -> (r: Option<MessageType>)
    ensures
        r matches Some(k) ==> ben_bytes(*o).contains_key(key_y()) && k.spec_rpc_name() == ben_bytes(*o)[key_y()],
        r is None ==> !ben_bytes(*o).contains_key(key_y()) || (ben_bytes(*o)[key_y()] != seq![113u8]
            && ben_bytes(*o)[key_y()] != seq![114u8] && ben_bytes(*o)[key_y()] != seq![101u8]),
{
    match ben_get_bytes(o, crate::messages::bytes_of_y().as_slice()) {
        Some(y) => MessageType::from_rpc_type_name(y.as_slice()),
        None => None,
    }
}

/// What sending `m0` as `m1` from a server in state `s0` gives: no destination, a bogon
/// destination (unless bogons are let through) or a `find_node` request without target
/// is an error, the first two leaving the message as it was; all but error frames are
/// stamped with `local`; a destination already at its egress limit gives `None`, any
/// other the frame of the stamped message.
pub open spec fn send_outcome<T>(s0: Server<T>, m0: Message, m1: Message, local: UID, r: Result<Option<BencodeObject>, SendError>) -> bool {
    &&& m1.spec_header().tid == m0.spec_header().tid
    &&& m0.spec_header().destination is None ==> r == Err::<Option<BencodeObject>, SendError>(SendError::NoDestination) && m1 == m0
    &&& m0.spec_header().destination matches Some(d) ==> {
        &&& !s0.allow_bogon && spec_bogon(d) ==> r == Err::<Option<BencodeObject>, SendError>(SendError::BogonDestination) && m1 == m0
        &&& (s0.allow_bogon || !spec_bogon(d)) ==> {
            &&& m1.same_body(m0)
            &&& m1.spec_header() == if m0.spec_type() == MessageType::ErrMsg {
                m0.spec_header()
            } else {
                Header { uid: Some(local), ..m0.spec_header() }
            }
            &&& !has_needed_target(m0) ==> r == Err::<Option<BencodeObject>, SendError>(SendError::MissingTarget)
            &&& has_needed_target(m0) ==> {
                &&& s0.sender_throttle.count(d.ip) + 1 >= BURST ==> r == Ok::<Option<BencodeObject>, SendError>(None)
                &&& s0.sender_throttle.count(d.ip) + 1 < BURST ==> (r matches Ok(Some(o)) && encodes(m1, o))
            }
        }
    }
}

/// Sending `m` from `s` counts against the egress throttle of address `x`: the message
/// goes to `x` and passes the destination and target checks.
pub open spec fn counts_send<T>(s: Server<T>, m: Message, x: IpAddress) -> bool {
    &&& m.spec_header().destination matches Some(d)
    &&& d.ip == x
    &&& s.allow_bogon || !spec_bogon(d)
    &&& has_needed_target(m)
}

/// The frame carries an observed address in compact form.
pub open spec fn has_observed_address(o: BencodeObject) -> bool {
    ben_bytes(o).contains_key(key_ip()) && (ben_bytes(o)[key_ip()].len() == 6 || ben_bytes(o)[key_ip()].len() == 18)
}

/// The call was for `src` and, when it named a node, for that node's identifier.
pub open spec fn call_matches<T>(c: Call<T>, src: SocketAddress, uid: Seq<u8>) -> bool {
    &&& c.destination == Some(src)
    &&& c.node matches Some(n) ==> n.uid@ == uid
}

/// `b` is `a` with its origin set to `src`.
pub open spec fn origin_set(a: Message, b: Message, src: SocketAddress) -> bool {
    b.spec_header() == (Header { origin: Some(src), ..a.spec_header() }) && b.same_body(a)
}

proof fn lemma_origin_only(kind: MessageType, method: Option<Method>, o: BencodeObject, a: Message, b: Message, src: SocketAddress)
    requires
        decoded(kind, method, o, a),
        origin_set(a, b, src),
    ensures
        decoded(kind, method, o, b),
{
    match (a, b) {
        (Message::FindNodeResponse(x), Message::FindNodeResponse(y)) => {
            assert(x.nodes@ == y.nodes@);
        },
        _ => {},
    }
}

impl<T> Server<T> {
    /// The decisions on a response frame `o` from `src`: the call waiting under its
    /// transaction identifier is taken out (none: dropped with 202); the frame is read
    /// as the response to that call's method (malformed: dropped with 203); an
    /// observed address in it goes to the public-address vote of `table`, which may
    /// restart it with `random`; a response from another endpoint than the call's
    /// destination, or from another node than the call's, is dropped with 201; else
    /// it is delivered with the call's node, or the responder as a new node.
    pub fn handle_response(&mut self, table: &mut RoutingTable, o: &BencodeObject, src: SocketAddress, random: &[u8; 20]) -> (r: ResponseAction<T>)
        requires
            old(self).wf(),
            old(table).wf(),
        ensures
            final(self).wf(),
            final(table).wf(),
            final(table).secure_only == old(table).secure_only,
            final(table).secure_only && old(table).all_secure() ==> final(table).all_secure(),
            final(self).sender_throttle == old(self).sender_throttle,
            final(self).receiver_throttle == old(self).receiver_throttle,
            !ben_bytes(*o).contains_key(key_t()) ==> r == ResponseAction::<T>::Drop(SERVER_ERROR) && final(self).tracker == old(self).tracker
                && *final(table) == *old(table),
            ben_bytes(*o).contains_key(key_t()) ==> {
                let tid = tid_from(ben_bytes(*o)[key_t()]);
                let call = old(self).tracker.lookup(tid);
                &&& final(self).tracker.lookup(tid) is None
                &&& forall|t: Seq<u8>| t != tid ==> #[trigger] final(self).tracker.lookup(t) == old(self).tracker.lookup(t)
                &&& call is None ==> r == ResponseAction::<T>::Drop(SERVER_ERROR)
                &&& call is Some && !decodable(MessageType::RspMsg, Some(call->0.method), *o) ==> r == ResponseAction::<T>::Drop(PROTOCOL_ERROR)
                &&& call is None || !decodable(MessageType::RspMsg, Some(call->0.method), *o) || !has_observed_address(*o)
                    ==> *final(table) == *old(table)
                &&& call is Some && decodable(MessageType::RspMsg, Some(call->0.method), *o) ==> match r {
                    ResponseAction::Drop(code) => code == GENERIC_ERROR
                        && !call_matches(call->0, src, ben_dicts(*o)[key_r()][key_id()].take(20)),
                    ResponseAction::Deliver(c, m, n) => {
                        &&& c == call->0
                        &&& decoded(MessageType::RspMsg, Some(c.method), *o, m)
                        &&& m.spec_header().origin == Some(src)
                        &&& call_matches(c, src, m.spec_header().uid->0@)
                        &&& n == match c.node {
                            Some(x) => Some(x),
                            None => Some(Node {
                                uid: m.spec_header().uid->0,
                                address: src,
                                first_seen: 0,
                                last_seen: 0,
                                last_responded: 0,
                                stale_count: 0,
                            }),
                        }
                    },
                }
            },
    {
        let tid = match transaction_id(o) {
            Some(t) => t,
            None => return ResponseAction::Drop(SERVER_ERROR),
        };
        let call = match self.tracker.poll(&tid) {
            Some(c) => c,
            None => return ResponseAction::Drop(SERVER_ERROR),
        };
        let mut msg = match Message::decode(MessageType::RspMsg, Some(call.method), o) {
            Ok(m) => m,
            Err(e) => return ResponseAction::Drop(e.code),
        };
        let ghost read = msg;
        msg.set_origin(src);
        proof {
            lemma_origin_only(MessageType::RspMsg, Some(call.method), *o, read, msg, src);
        }
        let h = msg.header();
        match h.public {
            Some(p) => {
                table.update_public_ip_consensus(src.ip, p.ip, random);
            },
            None => {},
        }
        let uid = h.uid.unwrap();
        if !(call.destination == Some(src)) {
            return ResponseAction::Drop(GENERIC_ERROR);
        }
        let node = match call.node {
            Some(n) => {
                if !(n.uid == uid) {
                    return ResponseAction::Drop(GENERIC_ERROR);
                }
                n
            },
            None => Node::new(uid, src),
        };
        ResponseAction::Deliver(call, msg, Some(node))
    }
}


impl<T> Server<T> {
    /// The decisions on an error frame `o` from `src`: as for a response, the call is
    /// taken out (none: 202), the frame read (malformed: 203), an observed address
    /// voted on, and a frame from another endpoint than the call's destination dropped
    /// with 201; else it is delivered with the call's node.
    pub fn handle_error(&mut self, table: &mut RoutingTable, o: &BencodeObject, src: SocketAddress, random: &[u8; 20]) -> (r: ResponseAction<T>)
        requires
            old(self).wf(),
            old(table).wf(),
        ensures
            final(self).wf(),
            final(table).wf(),
            final(table).secure_only == old(table).secure_only,
            final(table).secure_only && old(table).all_secure() ==> final(table).all_secure(),
            final(self).sender_throttle == old(self).sender_throttle,
            final(self).receiver_throttle == old(self).receiver_throttle,
            !ben_bytes(*o).contains_key(key_t()) ==> r == ResponseAction::<T>::Drop(SERVER_ERROR) && final(self).tracker == old(self).tracker
                && *final(table) == *old(table),
            ben_bytes(*o).contains_key(key_t()) ==> {
                let tid = tid_from(ben_bytes(*o)[key_t()]);
                let call = old(self).tracker.lookup(tid);
                &&& final(self).tracker.lookup(tid) is None
                &&& forall|t: Seq<u8>| t != tid ==> #[trigger] final(self).tracker.lookup(t) == old(self).tracker.lookup(t)
                &&& call is None ==> r == ResponseAction::<T>::Drop(SERVER_ERROR)
                &&& call is Some && !decodable(MessageType::ErrMsg, None, *o) ==> r == ResponseAction::<T>::Drop(PROTOCOL_ERROR)
                &&& call is None || !decodable(MessageType::ErrMsg, None, *o) || !has_observed_address(*o)
                    ==> *final(table) == *old(table)
                &&& call is Some && decodable(MessageType::ErrMsg, None, *o) ==> match r {
                    ResponseAction::Drop(code) => code == GENERIC_ERROR && call->0.destination != Some(src),
                    ResponseAction::Deliver(c, m, n) => {
                        &&& c == call->0
                        &&& decoded(MessageType::ErrMsg, None, *o, m)
                        &&& m.spec_header().origin == Some(src)
                        &&& c.destination == Some(src)
                        &&& n == c.node
                    },
                }
            },
    {
        let tid = match transaction_id(o) {
            Some(t) => t,
            None => return ResponseAction::Drop(SERVER_ERROR),
        };
        let call = match self.tracker.poll(&tid) {
            Some(c) => c,
            None => return ResponseAction::Drop(SERVER_ERROR),
        };
        let mut msg = match Message::decode(MessageType::ErrMsg, None, o) {
            Ok(m) => m,
            Err(e) => return ResponseAction::Drop(e.code),
        };
        let ghost read = msg;
        msg.set_origin(src);
        proof {
            lemma_origin_only(MessageType::ErrMsg, None, *o, read, msg, src);
        }
        match msg.header().public {
            Some(p) => {
                table.update_public_ip_consensus(src.ip, p.ip, random);
            },
            None => {},
        }
        if !(call.destination == Some(src)) {
            return ResponseAction::Drop(GENERIC_ERROR);
        }
        let node = call.node;
        ResponseAction::Deliver(call, msg, node)
    }

    /// The send path: a message needs a destination, which must not be a bogon unless
    /// bogons are let through; all but error frames are stamped with `local`; a
    /// `find_node` request needs its target. The frame is then counted against the
    /// egress throttle of the destination: `None` when it is throttled and dropped,
    /// else the frame to send.
    pub fn send(&mut self, m: &mut Message, local: &UID) -> (r: Result<Option<BencodeObject>, SendError>)
        requires
            old(self).wf(),
        ensures
            final(self).wf(),
            final(self).tracker == old(self).tracker,
            final(self).receiver_throttle == old(self).receiver_throttle,
            send_outcome(*old(self), *old(m), *final(m), *local, r),
            forall|x| #[trigger] final(self).sender_throttle.count(x) == if counts_send(*old(self), *old(m), x) {
                if old(self).sender_throttle.count(x) + 1 < BURST {
                    old(self).sender_throttle.count(x) + 1
                } else {
                    BURST as nat
                }
            } else {
                old(self).sender_throttle.count(x)
            },
    {
        let dest = match m.header().destination {
            Some(d) => d,
            None => return Err(SendError::NoDestination),
        };
        if !self.allow_bogon && is_bogon(&dest) {
            return Err(SendError::BogonDestination);
        }
        if m.get_type() != MessageType::ErrMsg {
            m.set_uid(*local);
        }
        if !m.has_target_if_needed() {
            return Err(SendError::MissingTarget);
        }
        if self.sender_throttle.add_and_test(dest.ip) {
            return Ok(None);
        }
        Ok(Some(m.encode()))
    }

    /// Sends a request and registers a call for its answer: the request takes the
    /// fresh transaction identifier `tid`, and a call with `payload`, the expected
    /// `node` and the time `now` waits under it. Other messages are sent as they are.
    pub fn send_with_node_callback(&mut self, m: &mut Message, node: Option<Node>, payload: T, tid: [u8; 6], now: u64, local: &UID) -> (r: Result<Option<BencodeObject>, SendError>)
        requires
            old(self).wf(),
        ensures
            final(self).wf(),
            old(m).spec_type() == MessageType::ReqMsg ==> {
                &&& final(self).tracker.lookup(tid@) matches Some(c)
                &&& c.sent_at == now && c.node == node && c.payload == payload
                &&& c.destination == old(m).spec_header().destination
                &&& Some(c.method) == old(m).spec_method()
                &&& final(m).spec_header().tid == tid
                &&& forall|t: Seq<u8>| t != tid@ ==> #[trigger] final(self).tracker.lookup(t) == old(self).tracker.lookup(t)
                &&& exists|m0: Message|
                    #[trigger] send_outcome(*old(self), m0, *final(m), *local, r)
                        && m0.spec_header() == (Header { tid, ..old(m).spec_header() }) && m0.same_body(*old(m))
            },
            old(m).spec_type() != MessageType::ReqMsg ==> final(self).tracker == old(self).tracker
                && send_outcome(*old(self), *old(m), *final(m), *local, r),
    {
        let ghost start = *self;
        if m.get_type() == MessageType::ReqMsg {
            m.set_transaction_id(tid);
            let method = match m.get_method() {
                Some(x) => x,
                None => Method::Ping,
            };
            let h = m.header();
            self.tracker.add(Call { tid, sent_at: now, destination: h.destination, method, node, payload });
        }
        let ghost m0 = *m;
        let ghost mid = *self;
        let r = self.send(m, local);
        proof {
            assert(mid.allow_bogon == start.allow_bogon && mid.sender_throttle == start.sender_throttle);
            assert(send_outcome(mid, m0, *m, *local, r));
            assert(send_outcome(start, m0, *m, *local, r));
        }
        r
    }

    /// The periodic tick at `now`: once a second has passed since the last one, both
    /// throttles decay and the stalled calls are taken out and returned.
    pub fn tick(&mut self, now: u64) -> (r: Vec<Call<T>>)
        requires
            old(self).wf(),
        ensures
            final(self).wf(),
            !(now >= old(self).last_decay_time && now - old(self).last_decay_time >= DECAY_PERIOD) ==> r@.len() == 0 && *final(self) == *old(self),
            now >= old(self).last_decay_time && now - old(self).last_decay_time >= DECAY_PERIOD ==> {
                &&& final(self).last_decay_time == now
                &&& forall|t: Seq<u8>| #[trigger] final(self).tracker.lookup(t) == match old(self).tracker.lookup(t) {
                    Some(c) => if is_stalled(c, now) {
                        None
                    } else {
                        Some(c)
                    },
                    None => None,
                }
                &&& forall|k: int| 0 <= k < r@.len() ==> is_stalled(#[trigger] r@[k], now) && old(self).tracker.lookup(r@[k].tid@) == Some(r@[k])
                &&& forall|t: Seq<u8>|
                    #[trigger] old(self).tracker.lookup(t) is Some && is_stalled(old(self).tracker.lookup(t)->0, now) ==> exists|k: int|
                        0 <= k < r@.len() && r@[k].tid@ == t
            },
    {
        if now < self.last_decay_time || now - self.last_decay_time < DECAY_PERIOD {
            return Vec::new();
        }
        self.receiver_throttle.decay(now);
        self.sender_throttle.decay(now);
        self.last_decay_time = now;
        self.tracker.remove_stalled(now)
    }
}


impl<T> Server<T> {
    /// Sends a request with no expected node and registers a call for its answer; see
    /// `send_with_node_callback`.
    pub fn send_with_callback(&mut self, m: &mut Message, payload: T, tid: [u8; 6], now: u64, local: &UID) -> (r: Result<Option<BencodeObject>, SendError>)
        requires
            old(self).wf(),
        ensures
            final(self).wf(),
            old(m).spec_type() == MessageType::ReqMsg ==> {
                &&& final(self).tracker.lookup(tid@) matches Some(c)
                &&& c.sent_at == now && c.node is None && c.payload == payload
                &&& c.destination == old(m).spec_header().destination
                &&& Some(c.method) == old(m).spec_method()
                &&& final(m).spec_header().tid == tid
                &&& forall|t: Seq<u8>| t != tid@ ==> #[trigger] final(self).tracker.lookup(t) == old(self).tracker.lookup(t)
                &&& exists|m0: Message|
                    #[trigger] send_outcome(*old(self), m0, *final(m), *local, r)
                        && m0.spec_header() == (Header { tid, ..old(m).spec_header() }) && m0.same_body(*old(m))
            },
            old(m).spec_type() != MessageType::ReqMsg ==> final(self).tracker == old(self).tracker
                && send_outcome(*old(self), *old(m), *final(m), *local, r),
    {
        self.send_with_node_callback(m, None, payload, tid, now, local)
    }
}

} // verus!
