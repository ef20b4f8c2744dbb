use kad_dht::bencode::{ben_new, ben_put_bytes, ben_put_dict};
use kad_dht::lookup::{BucketRefreshTask, FindNodeResponseListener, JoinNodeResponseListener, PingResponseListener};
use kad_dht::messages::{
    ErrorResponse, FindNodeRequest, FindNodeResponse, Header, Message, MessageType, Method, PingRequest,
    PingResponse,
};
use kad_dht::net::{IpAddress, SocketAddress};
use kad_dht::node::{derive_secure_uid, Node};
use kad_dht::routing::RoutingTable;
use kad_dht::rpc::{find_node_handler, finish_request, ping_handler, RequestAction, ResponseAction, SendError, Server};
use kad_dht::throttle::SpamThrottle;
use kad_dht::tracker::{Call, ResponseTracker};
use kad_dht::uid::UID;

fn uid_of(b: u8) -> UID {
    UID { bid: [b; 20] }
}

fn v4(a: u8, b: u8, c: u8, d: u8, port: u16) -> SocketAddress {
    SocketAddress { ip: IpAddress::V4([a, b, c, d]), port }
}

fn open_table(local: UID) -> RoutingTable {
    let mut t = RoutingTable::new(8, false, &[0u8; 20]);
    t.uid = local;
    t
}

/// An identifier at distance 160 from the all-zero identifier, told apart by its last byte.
fn far_id(tag: u8) -> UID {
    let mut b = [0u8; 20];
    b[0] = 0x80;
    b[19] = tag;
    UID { bid: b }
}

#[test]
fn insert_files_node_by_distance() {
    let mut t = open_table(uid_of(0));
    let n = Node::new(far_id(1), v4(1, 1, 1, 1, 80));
    t.insert(n, 10);
    assert_eq!(t.bucket_size(160), 1);
    assert_eq!(t.bucket_uid(&n.uid), 160);
    let mut near = [0u8; 20];
    near[19] = 3;
    t.insert(Node::new(UID { bid: near }, v4(2, 2, 2, 2, 80)), 10);
    assert_eq!(t.bucket_size(2), 1);
    t.insert(Node::new(uid_of(0), v4(3, 3, 3, 3, 80)), 10);
    assert_eq!(t.all_nodes().len(), 2);
}

#[test]
fn insert_rejects_same_network_and_refreshes_same_id() {
    let mut t = open_table(uid_of(0));
    t.insert(Node::new(far_id(1), v4(5, 6, 7, 1, 80)), 10);
    t.insert(Node::new(far_id(2), v4(5, 6, 7, 2, 80)), 10);
    assert_eq!(t.bucket_size(160), 1);
    t.insert(Node::new(far_id(1), v4(5, 6, 7, 1, 80)), 99);
    assert_eq!(t.bucket_size(160), 1);
    assert_eq!(t.buckets[160].nodes[0].last_seen, 99);
}

#[test]
fn stale_node_is_evicted_when_bucket_full() {
    let mut t = open_table(uid_of(0));
    for i in 0..8u8 {
        t.insert(Node::new(far_id(i), v4(10 + i, 1, 1, 1, 80)), 1);
    }
    assert_eq!(t.bucket_size(160), 8);
    t.insert(Node::new(far_id(50), v4(60, 1, 1, 1, 80)), 1);
    assert_eq!(t.bucket_size(160), 8);
    assert_eq!(t.buckets[160].cache.len(), 1);
    t.mark_stale(&far_id(3));
    let fresh = Node::new(far_id(51), v4(61, 1, 1, 1, 80));
    t.insert(fresh, 2);
    assert_eq!(t.bucket_size(160), 8);
    assert!(t.buckets[160].nodes.iter().all(|n| n.uid != far_id(3)));
    assert!(t.buckets[160].nodes[7] == fresh);
}

#[test]
fn secure_only_table_takes_only_bound_ids() {
    let mut t = RoutingTable::new(8, true, &[0u8; 20]);
    let ip = IpAddress::V4([124, 31, 75, 21]);
    t.insert(Node::new(uid_of(0x77), SocketAddress { ip, port: 80 }), 1);
    assert_eq!(t.all_nodes().len(), 0);
    let mut random = [0x42u8; 20];
    random[19] = 1;
    let id = derive_secure_uid(&ip, &random);
    t.insert(Node::new(id, SocketAddress { ip, port: 80 }), 1);
    assert_eq!(t.all_nodes().len(), 1);
    assert!(t.all_nodes()[0].has_secure_id());
}

#[test]
fn find_closest_orders_by_xor() {
    let mut t = open_table(uid_of(0));
    let ids = [0x81u8, 0x90, 0xc0, 0x41, 0x21];
    for (k, b) in ids.iter().enumerate() {
        let mut bid = [0u8; 20];
        bid[0] = *b;
        let mut n = Node::new(UID { bid }, v4(20 + k as u8, 1, 1, 1, 80));
        n.responded(1);
        t.insert(n, 1);
    }
    let mut target = [0u8; 20];
    target[0] = 0x80;
    let r = t.find_closest(&UID { bid: target }, 3, 10);
    let firsts: Vec<u8> = r.iter().map(|n| n.uid.bid[0]).collect();
    assert_eq!(firsts, vec![0x81, 0x90, 0xc0]);
    let all = t.find_closest(&UID { bid: target }, 20, 10);
    assert_eq!(t.find_closest(&UID { bid: target }, 20, 2_000_000).len(), 0);
    assert_eq!(all.len(), 5);
}

#[test]
fn has_queried_within_five_seconds() {
    let mut t = open_table(uid_of(0));
    let n = Node::new(far_id(1), v4(1, 1, 1, 1, 80));
    t.insert(n, 0);
    assert!(!t.has_queried(&n, 1000));
    t.seen(&n.uid, 1000);
    assert!(t.has_queried(&n, 5999));
    assert!(!t.has_queried(&n, 6000));
}

#[test]
fn consensus_flips_on_majority() {
    let mut t = open_table(uid_of(0));
    let x = IpAddress::V4([9, 9, 9, 9]);
    let y = IpAddress::V4([8, 8, 8, 8]);
    t.consensus_external_address = y;
    let mut restarts = 0;
    let mut flipped_at = 0;
    for i in 0..25u8 {
        let source = IpAddress::V4([50, 0, 0, i]);
        let addr = if i < 5 { y } else { x };
        if t.update_public_ip_consensus(source, addr, &[i; 20]) {
            restarts += 1;
            flipped_at = i as usize + 1;
        }
    }
    assert_eq!(restarts, 1);
    assert_eq!(flipped_at, 21);
    assert!(t.get_consensus_external_address() == x);
    assert!(t.get_derived_uid() != uid_of(0));
    let before = t.origin_pairs.len();
    assert!(!t.update_public_ip_consensus(IpAddress::V4([51, 0, 0, 1]), IpAddress::V4([10, 0, 0, 1]), &[0; 20]));
    assert_eq!(t.origin_pairs.len(), before);
}

#[test]
fn throttle_drops_after_burst_and_decays() {
    let mut th = SpamThrottle::new(0);
    let ip = IpAddress::V4([7, 7, 7, 7]);
    let mut processed = 0;
    for _ in 0..15 {
        if !th.add_and_test(ip) {
            processed += 1;
        }
    }
    assert_eq!(processed, 9);
    assert!(th.test(ip));
    th.decay(1000);
    let mut more = 0;
    for _ in 0..5 {
        if !th.add_and_test(ip) {
            more += 1;
        }
    }
    assert_eq!(more, 1);
    assert!(!th.test(IpAddress::V4([7, 7, 7, 8])));
}

#[test]
fn throttle_delay_and_dec() {
    let mut th = SpamThrottle::new(0);
    let ip = IpAddress::V4([7, 7, 7, 7]);
    for _ in 0..10 {
        assert_eq!(th.calculate_delay_and_add(ip), 0);
    }
    assert_eq!(th.calculate_delay_and_add(ip), 500);
    th.saturating_dec(ip);
    assert_eq!(th.calculate_delay_and_add(ip), 500);
    th.remove(ip);
    assert!(!th.test(ip));
}

fn call(tid: [u8; 6], sent_at: u64) -> Call<u32> {
    Call { tid, sent_at, destination: None, method: Method::Ping, node: None, payload: 1 }
}

#[test]
fn tracker_keeps_one_call_per_tid() {
    let mut tr: ResponseTracker<u32> = ResponseTracker::new();
    tr.add(call([1; 6], 0));
    tr.add(call([1; 6], 5));
    tr.add(call([2; 6], 0));
    assert_eq!(tr.len(), 2);
    let c = tr.poll(&[1; 6]).unwrap();
    assert_eq!(c.sent_at, 5);
    assert!(tr.poll(&[1; 6]).is_none());
    let stalled = tr.remove_stalled(8000);
    assert_eq!(stalled.len(), 1);
    assert_eq!(tr.len(), 0);
}

fn round_trip(m: &Message) -> Message {
    let o = m.encode();
    Message::decode(m.get_type(), m.get_method(), &o).ok().unwrap()
}

#[test]
fn messages_round_trip() {
    let mut h = Header::new([1, 2, 3, 4, 5, 6]);
    h.uid = Some(uid_of(9));
    let ping = Message::PingRequest(PingRequest { header: h });
    let back = round_trip(&ping);
    assert!(back.header().tid == [1, 2, 3, 4, 5, 6]);
    assert!(back.header().uid == Some(uid_of(9)));
    assert!(matches!(back, Message::PingRequest(_)));

    let fr = Message::FindNodeRequest(FindNodeRequest { header: h, target: Some(uid_of(3)) });
    match round_trip(&fr) {
        Message::FindNodeRequest(f) => assert!(f.target == Some(uid_of(3))),
        _ => panic!("wrong kind"),
    }

    let mut rh = h;
    rh.public = Some(v4(1, 2, 3, 4, 99));
    let pr = Message::PingResponse(PingResponse { header: rh });
    assert!(round_trip(&pr).header().public == Some(v4(1, 2, 3, 4, 99)));

    let mut o6 = [0u8; 16];
    o6[0] = 0x2a;
    let nodes = vec![
        Node::new(uid_of(4), v4(4, 4, 4, 4, 4)),
        Node::new(uid_of(5), SocketAddress { ip: IpAddress::V6(o6), port: 5 }),
    ];
    let fresp = Message::FindNodeResponse(FindNodeResponse { header: rh, nodes: nodes.clone() });
    match round_trip(&fresp) {
        Message::FindNodeResponse(f) => {
            assert_eq!(f.nodes.len(), 2);
            assert!(f.nodes[0] == nodes[0]);
            assert!(f.nodes[1] == nodes[1]);
        },
        _ => panic!("wrong kind"),
    }

    let err = Message::ErrorResponse(ErrorResponse { header: rh, code: 204, description: b"Method Unknown".to_vec() });
    match round_trip(&err) {
        Message::ErrorResponse(e) => {
            assert_eq!(e.code, 204);
            assert_eq!(e.description, b"Method Unknown".to_vec());
        },
        _ => panic!("wrong kind"),
    }
}

#[test]
fn decode_rejects_missing_body() {
    let mut o = ben_new();
    ben_put_bytes(&mut o, b"t", b"abcdef");
    let r = Message::decode(MessageType::ReqMsg, Some(Method::Ping), &o);
    assert_eq!(r.err().unwrap().code, 203);
}

fn server() -> Server<u32> {
    let mut s: Server<u32> = Server::new(0);
    s.register_request_listener(Method::Ping);
    s.register_request_listener(Method::FindNode);
    s
}

#[test]
fn unknown_method_gets_204() {
    let s = server();
    let mut table = open_table(uid_of(1));
    let mut o = ben_new();
    ben_put_bytes(&mut o, b"t", b"zzzzzz");
    ben_put_bytes(&mut o, b"y", b"q");
    ben_put_bytes(&mut o, b"q", b"announce_peer");
    let mut a = ben_new();
    ben_put_bytes(&mut a, b"id", &[2u8; 20]);
    ben_put_dict(&mut o, b"a", a);
    match s.handle_request(&mut table, &o, v4(1, 2, 3, 4, 5), 0) {
        RequestAction::Reply(Message::ErrorResponse(e)) => {
            assert_eq!(e.code, 204);
            assert_eq!(&e.header.tid, b"zzzzzz");
        },
        _ => panic!("expected an error reply"),
    }
}

#[test]
fn find_node_round_trip_between_two_nodes() {
    let a_uid = uid_of(0x01);
    let b_uid = uid_of(0x02);
    let a_addr = v4(1, 1, 1, 1, 5000);
    let b_addr = v4(2, 2, 2, 2, 5001);
    let mut a_table = open_table(a_uid);
    let mut b_table = open_table(b_uid);
    let mut a_server = server();
    let mut b_server = server();

    let mut req = Message::FindNodeRequest(FindNodeRequest {
        header: Header { destination: Some(a_addr), ..Header::new([0; 6]) },
        target: Some(a_uid),
    });
    let a_node = Node::new(a_uid, a_addr);
    let frame = b_server.send_with_node_callback(&mut req, Some(a_node), 7, [9, 9, 9, 9, 9, 9], 0, &b_uid).unwrap().unwrap();

    assert!(a_server.accept_datagram(&b_addr));
    let (msg, sender) = match a_server.handle_request(&mut a_table, &frame, b_addr, 1) {
        RequestAction::Dispatch(m, n) => (m, n),
        _ => panic!("expected a dispatch"),
    };
    assert!(sender.uid == b_uid);
    assert_eq!(a_table.bucket_size(a_uid.distance(&b_uid)), 1);
    let mut reply = find_node_handler(&a_table, &msg, &sender, 1);
    let reply = finish_request(&msg, Some(reply_take(&mut reply)), false).unwrap();
    let mut reply = reply;
    let out = a_server.send(&mut reply, &a_uid).unwrap().unwrap();

    match b_server.handle_response(&mut b_table, &out, a_addr, &[0u8; 20]) {
        ResponseAction::Deliver(c, m, n) => {
            assert_eq!(c.payload, 7);
            assert!(n.unwrap().uid == a_uid);
            match m {
                Message::FindNodeResponse(f) => assert!(f.nodes.len() <= 20),
                _ => panic!("wrong kind"),
            }
        },
        _ => panic!("expected delivery"),
    }
    assert_eq!(b_server.tracker.len(), 0);
}

fn reply_take(m: &mut Message) -> Message {
    std::mem::replace(m, Message::PingRequest(PingRequest { header: Header::new([0; 6]) }))
}

#[test]
fn response_from_wrong_address_is_dropped() {
    let b_uid = uid_of(0x02);
    let d = v4(3, 3, 3, 3, 3);
    let other = v4(4, 4, 4, 4, 4);
    let mut b_server = server();
    let mut b_table = open_table(b_uid);
    let mut req = Message::PingRequest(PingRequest { header: Header { destination: Some(d), ..Header::new([0; 6]) } });
    b_server.send_with_callback(&mut req, 1, [5; 6], 0, &b_uid).unwrap();
    let mut resp = Message::PingResponse(PingResponse {
        header: Header { destination: Some(b_addr()), ..Header::new([5; 6]) },
    });
    let mut sender: Server<u32> = Server::new(0);
    let frame = sender.send(&mut resp, &uid_of(0x03)).unwrap().unwrap();
    match b_server.handle_response(&mut b_table, &frame, other, &[0u8; 20]) {
        ResponseAction::Drop(code) => assert_eq!(code, 201),
        _ => panic!("expected a drop"),
    }
    assert_eq!(b_server.tracker.len(), 0);
}

fn b_addr() -> SocketAddress {
    v4(2, 2, 2, 2, 5001)
}

#[test]
fn send_path_checks() {
    let mut s = server();
    let mut m = Message::PingRequest(PingRequest { header: Header::new([0; 6]) });
    assert!(matches!(s.send(&mut m, &uid_of(1)), Err(SendError::NoDestination)));
    let mut bogon = Message::PingRequest(PingRequest { header: Header { destination: Some(v4(10, 0, 0, 1, 1)), ..Header::new([0; 6]) } });
    assert!(matches!(s.send(&mut bogon, &uid_of(1)), Err(SendError::BogonDestination)));
    assert!(s.start());
    assert!(!s.start());
    s.stop();
    assert!(!s.is_running());
}

#[test]
fn ping_reply_goes_back_to_origin() {
    let mut req = Message::PingRequest(PingRequest { header: Header::new([4; 6]) });
    req.set_origin(v4(6, 6, 6, 6, 6));
    match ping_handler(&req) {
        Message::PingResponse(p) => {
            assert!(p.header.destination == Some(v4(6, 6, 6, 6, 6)));
            assert!(p.header.public == Some(v4(6, 6, 6, 6, 6)));
            assert_eq!(p.header.tid, [4; 6]);
        },
        _ => panic!("wrong kind"),
    }
    assert!(finish_request(&req, None, true).is_none());
    match finish_request(&req, None, false) {
        Some(Message::ErrorResponse(e)) => assert_eq!(e.code, 204),
        _ => panic!("expected 204"),
    }
}

#[test]
fn join_lookup_recurses_then_converges() {
    let mut table = open_table(uid_of(0));
    let mut join = JoinNodeResponseListener::new();
    let responder = Node::new(far_id(1), v4(1, 1, 1, 1, 1));
    let mut closer_id = [0u8; 20];
    closer_id[19] = 1;
    let closer = Node::new(UID { bid: closer_id }, v4(2, 2, 2, 2, 2));
    let step = join.on_response(&mut table, responder, &vec![closer], 10);
    assert_eq!(step.find_node.len(), 1);
    assert_eq!(step.ping.len(), 0);
    let step2 = join.on_response(&mut table, closer, &vec![closer, Node::new(far_id(9), v4(3, 3, 3, 3, 3))], 20);
    assert_eq!(step2.find_node.len(), 0);
    assert_eq!(step2.ping.len(), 1);
    assert!(join.stop);
}

#[test]
fn refresh_listener_pings_new_nodes() {
    let mut table = open_table(uid_of(0));
    let mut l = FindNodeResponseListener::new();
    let n = Node::new(far_id(4), v4(4, 4, 4, 4, 4));
    let pings = l.on_response(&mut table, Node::new(far_id(1), v4(1, 1, 1, 1, 1)), &vec![n, n], 5);
    assert_eq!(pings.len(), 2);
    let again = l.on_response(&mut table, Node::new(far_id(1), v4(1, 1, 1, 1, 1)), &vec![n], 6);
    assert_eq!(again.len(), 0);
    let p = PingResponseListener::new();
    p.on_response(&mut table, n, 7);
    assert_eq!(table.all_nodes().len(), 1);
    p.on_stalled(&mut table, Some(n));
    assert!(table.all_nodes()[0].is_stale());
    assert_eq!(table.stale_nodes().len(), 1);
}

#[test]
fn bucket_refresh_targets_sparse_buckets() {
    let mut table = open_table(uid_of(0));
    let task = BucketRefreshTask::new();
    assert_eq!(task.execute(&table, 5).len(), 0);
    table.insert(Node::new(far_id(1), v4(1, 1, 1, 1, 1)), 1);
    assert_eq!(task.execute(&table, 5).len(), 0);
    table.responded(&far_id(1), 2);
    let q = task.execute(&table, 5);
    assert_eq!(q.len(), 159);
    assert_eq!(q[0].distance, 1);
    assert_eq!(q[0].target.distance(&uid_of(0)), 1);
    assert_eq!(q[0].nodes.len(), 1);
}

#[test]
fn tick_reaps_stalled_calls() {
    let mut s = server();
    let d = v4(3, 3, 3, 3, 3);
    let mut req = Message::PingRequest(PingRequest { header: Header { destination: Some(d), ..Header::new([0; 6]) } });
    s.send_with_callback(&mut req, 11, [8; 6], 0, &uid_of(1)).unwrap();
    assert_eq!(s.tick(500).len(), 0);
    assert_eq!(s.tracker.len(), 1);
    let stalled = s.tick(9000);
    assert_eq!(stalled.len(), 1);
    assert_eq!(stalled[0].payload, 11);
    assert_eq!(s.tracker.len(), 0);
}

#[test]
fn error_frame_reaches_its_call() {
    let mut s = server();
    let mut table = open_table(uid_of(1));
    let d = v4(3, 3, 3, 3, 3);
    let mut req = Message::PingRequest(PingRequest { header: Header { destination: Some(d), ..Header::new([0; 6]) } });
    s.send_with_callback(&mut req, 4, [6; 6], 0, &uid_of(1)).unwrap();
    let err = Message::ErrorResponse(ErrorResponse {
        header: Header { destination: Some(v4(2, 2, 2, 2, 2)), ..Header::new([6; 6]) },
        code: 202,
        description: b"Server Error".to_vec(),
    });
    let mut e = err;
    let mut peer: Server<u32> = Server::new(0);
    let frame = peer.send(&mut e, &uid_of(3)).unwrap().unwrap();
    match s.handle_error(&mut table, &frame, d, &[0u8; 20]) {
        ResponseAction::Deliver(c, Message::ErrorResponse(x), _) => {
            assert_eq!(c.payload, 4);
            assert_eq!(x.code, 202);
        },
        _ => panic!("expected delivery"),
    }
}

#[test]
fn join_lookup_recurses_on_best_new_node() {
    let mut table = open_table(uid_of(0));
    let mut join = JoinNodeResponseListener::new();
    let mut mid = [0u8; 20];
    mid[10] = 1;
    let responder = Node::new(UID { bid: mid }, v4(1, 1, 1, 1, 1));
    let mut near = [0u8; 20];
    near[19] = 1;
    let closer = Node::new(UID { bid: near }, v4(2, 2, 2, 2, 2));
    let farther = Node::new(far_id(9), v4(3, 3, 3, 3, 3));
    let step = join.on_response(&mut table, responder, &vec![farther, closer], 10);
    assert_eq!(step.ping.len(), 0);
    assert_eq!(step.find_node.len(), 2);
    assert!(step.find_node[0] == closer);
    assert!(step.find_node[1] == farther);
    assert!(join.queries[0] == closer);
    assert!(step.start_refresh);
    assert!(!join.stop);
}

#[test]
fn refresh_sweep_uses_table_capacity() {
    let mut table = RoutingTable::new(5, false, &[0u8; 20]);
    table.uid = uid_of(0);
    for i in 0..5u8 {
        table.insert(Node::new(far_id(i), v4(10 + i, 1, 1, 1, 80)), 1);
        table.responded(&far_id(i), 1);
    }
    let q = BucketRefreshTask::new().execute(&table, 2);
    assert_eq!(q.len(), 159);
    assert!(q.iter().all(|x| x.distance != 160 && x.nodes.len() == 5));
    for v in 8..13u8 {
        let mut b = [0u8; 20];
        b[19] = v;
        table.insert(Node::new(UID { bid: b }, v4(50 + v, 1, 1, 1, 80)), 1);
    }
    assert_eq!(table.bucket_size(4), 5);
    let q2 = BucketRefreshTask::new().execute(&table, 2);
    assert_eq!(q2.len(), 158);
    assert!(q2.iter().all(|x| x.distance != 4));
    let targets = table.bootstrap_targets(2);
    assert_eq!(targets.len(), 5);
}

#[test]
fn send_errors_leave_message_alone() {
    let mut s = server();
    let mut m = Message::PingRequest(PingRequest { header: Header::new([3; 6]) });
    assert!(matches!(s.send(&mut m, &uid_of(1)), Err(SendError::NoDestination)));
    assert!(m.header().uid.is_none());
    assert_eq!(s.tracker.len(), 0);
    assert!(!s.tracker.contains(&[3; 6]));
}

#[test]
fn unknown_method_reply_is_described() {
    let mut req = Message::PingRequest(PingRequest { header: Header::new([4; 6]) });
    req.set_origin(v4(6, 6, 6, 6, 6));
    match finish_request(&req, None, false) {
        Some(Message::ErrorResponse(e)) => assert_eq!(e.description, b"Method Unknown".to_vec()),
        _ => panic!("expected 204"),
    }
}

#[test]
fn restart_keeps_nodes() {
    let mut t = open_table(uid_of(0));
    for i in 0..4u8 {
        t.insert(Node::new(far_id(i), v4(30 + i, 1, 1, 1, 80)), 1);
    }
    t.restart(&[5u8; 20]);
    assert_eq!(t.all_nodes().len(), 4);
}
