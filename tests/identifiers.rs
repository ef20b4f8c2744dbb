use kad_dht::crc32c::crc32c;
use kad_dht::decimal::parse_i32;
use kad_dht::net::{IpAddress, SocketAddress, is_bogon, is_global_unicast, pack_address, unpack_address};
use kad_dht::node::{derive_secure_uid, pack_nodes, secure_id_matches, unpack_nodes, Node};
use kad_dht::net::AddressTypes;
use kad_dht::uid::UID;
use kad_dht::vote::majority_vote;
use kad_dht::bucket_types::BucketTypes;

fn uid_of(b: u8) -> UID {
    UID { bid: [b; 20] }
}

#[test]
fn distance_of_equal_ids_is_zero() {
    let a = uid_of(0x01);
    assert_eq!(a.distance(&a), 0);
}

#[test]
fn distance_counts_common_prefix() {
    let a = uid_of(0x00);
    let mut b = [0u8; 20];
    b[0] = 0x80;
    assert_eq!(a.distance(&UID { bid: b }), 160);
    let mut c = [0u8; 20];
    c[19] = 0x01;
    assert_eq!(a.distance(&UID { bid: c }), 1);
    let mut d = [0u8; 20];
    d[2] = 0x10;
    assert_eq!(a.distance(&UID { bid: d }), 160 - 19);
}

#[test]
fn id_at_distance_lies_at_that_distance() {
    for base in [0x00u8, 0x5a, 0xff, 0x01] {
        let u = uid_of(base);
        for d in 1..=160usize {
            let t = u.generate_node_id_by_distance(d);
            assert_eq!(t.distance(&u), d);
            assert_eq!(u.distance(&t), d);
        }
    }
}

#[test]
fn id_at_distance_sets_the_low_bits() {
    let u = uid_of(0x00);
    let t = u.generate_node_id_by_distance(12);
    let mut expected = [0u8; 20];
    expected[18] = 0x0f;
    expected[19] = 0xff;
    assert_eq!(t.bytes(), expected);
    let v = uid_of(0xff);
    let w = v.generate_node_id_by_distance(8);
    let mut e2 = [0xffu8; 20];
    e2[19] = 0x7f;
    assert_eq!(w.bytes(), e2);
}

#[test]
fn hex_and_binary_forms() {
    let mut b = [0u8; 20];
    b[0] = 0xab;
    b[19] = 0x01;
    let u = UID { bid: b };
    assert_eq!(u.hex(), format!("ab{}01", "00".repeat(18)));
    let bin = u.binary();
    assert_eq!(bin.len(), 160);
    assert!(bin.starts_with("10101011"));
    assert!(bin.ends_with("00000001"));
}

#[test]
fn uid_equality_compares_bytes() {
    assert!(uid_of(3) == uid_of(3));
    assert!(uid_of(3) != uid_of(4));
    assert_eq!(UID::from([7u8; 20]).bytes(), [7u8; 20]);
}

#[test]
fn crc32c_check_value() {
    assert_eq!(crc32c(b"123456789"), 0xE306_9283);
    assert_eq!(crc32c(b""), 0);
}

#[test]
fn secure_id_matches_published_vectors() {
    let cases: [([u8; 4], u8, [u8; 3]); 5] = [
        ([124, 31, 75, 21], 1, [0x5f, 0xbf, 0xbf]),
        ([21, 75, 31, 124], 86, [0x5a, 0x3c, 0xe9]),
        ([65, 23, 51, 170], 22, [0xa5, 0xd4, 0x32]),
        ([84, 124, 73, 14], 65, [0x1b, 0x03, 0x21]),
        ([43, 213, 53, 83], 90, [0xe5, 0x6f, 0x6c]),
    ];
    for (ip, r, prefix) in cases {
        let mut random = [0u8; 20];
        random[19] = r;
        random[2] = prefix[2] & 0x07;
        let id = derive_secure_uid(&IpAddress::V4(ip), &random);
        assert_eq!(id.bid[0], prefix[0]);
        assert_eq!(id.bid[1], prefix[1]);
        assert_eq!(id.bid[2] & 0xf8, prefix[2] & 0xf8);
        assert!(secure_id_matches(&id, &IpAddress::V4(ip)));
        assert!(!secure_id_matches(&uid_of(0x33), &IpAddress::V4(ip)));
    }
}

#[test]
fn address_pack_round_trip() {
    let a = SocketAddress { ip: IpAddress::V4([1, 2, 3, 4]), port: 6881 };
    let p = pack_address(&a);
    assert_eq!(p, vec![1, 2, 3, 4, 0x1a, 0xe1]);
    assert!(unpack_address(&p) == Some(a));
    let mut o = [0u8; 16];
    o[0] = 0x20;
    o[15] = 9;
    let b = SocketAddress { ip: IpAddress::V6(o), port: 1 };
    assert_eq!(pack_address(&b).len(), 18);
    assert!(unpack_address(&pack_address(&b)) == Some(b));
    assert!(unpack_address(&[1, 2, 3]).is_none());
}

#[test]
fn bogon_filter() {
    assert!(is_global_unicast(&IpAddress::V4([8, 8, 8, 8])));
    assert!(!is_global_unicast(&IpAddress::V4([10, 0, 0, 1])));
    assert!(!is_global_unicast(&IpAddress::V4([127, 0, 0, 1])));
    assert!(!is_global_unicast(&IpAddress::V4([192, 168, 1, 1])));
    assert!(!is_global_unicast(&IpAddress::V4([172, 20, 1, 1])));
    assert!(is_global_unicast(&IpAddress::V4([172, 32, 1, 1])));
    assert!(is_bogon(&SocketAddress { ip: IpAddress::V4([8, 8, 8, 8]), port: 0 }));
    assert!(!is_bogon(&SocketAddress { ip: IpAddress::V4([8, 8, 8, 8]), port: 53 }));
    assert!(!is_global_unicast(&IpAddress::V6([0u8; 16])));
}

#[test]
fn nodes_pack_round_trip_v4_and_v6() {
    let v4: Vec<Node> = (1..5u8)
        .map(|i| Node::new(uid_of(i), SocketAddress { ip: IpAddress::V4([i, 1, 2, 3]), port: 1000 + i as u16 }))
        .collect();
    let packed = pack_nodes(&v4, AddressTypes::Ipv4);
    assert_eq!(packed.len(), 26 * 4);
    let back = unpack_nodes(&packed, AddressTypes::Ipv4);
    assert_eq!(back.len(), v4.len());
    for (a, b) in back.iter().zip(v4.iter()) {
        assert!(a == b);
    }
    let v6: Vec<Node> = (1..4u8)
        .map(|i| {
            let mut o = [0u8; 16];
            o[0] = 0x2a;
            o[15] = i;
            Node::new(uid_of(i), SocketAddress { ip: IpAddress::V6(o), port: 7 })
        })
        .collect();
    let packed6 = pack_nodes(&v6, AddressTypes::Ipv6);
    assert_eq!(packed6.len(), 38 * 3);
    let back6 = unpack_nodes(&packed6, AddressTypes::Ipv6);
    assert_eq!(back6.len(), 3);
    for (a, b) in back6.iter().zip(v6.iter()) {
        assert!(a == b);
    }
    assert_eq!(pack_nodes(&v6, AddressTypes::Ipv4).len(), 0);
}

#[test]
fn majority_vote_finds_strict_majority() {
    let x = IpAddress::V4([9, 9, 9, 9]);
    let y = IpAddress::V4([8, 8, 8, 8]);
    let mut v = vec![y, y, y];
    v.extend(std::iter::repeat(x).take(4));
    assert!(majority_vote(&v) == x);
    let w = vec![x, y, x, y, x];
    assert!(majority_vote(&w) == x);
}

#[test]
fn decimal_codes_parse() {
    assert_eq!(parse_i32(b"204"), Some(204));
    assert_eq!(parse_i32(b"-17"), Some(-17));
    assert_eq!(parse_i32(b"0"), Some(0));
    assert_eq!(parse_i32(b"007"), None);
    assert_eq!(parse_i32(b"-0"), None);
    assert_eq!(parse_i32(b"2147483648"), None);
    assert_eq!(parse_i32(b"-2147483648"), Some(i32::MIN));
    assert_eq!(parse_i32(b"12a"), None);
}

#[test]
fn bucket_type_names() {
    assert!(BucketTypes::from_string("MainLine") == Some(BucketTypes::MainLine));
    assert!(BucketTypes::from_string("Kademlia") == Some(BucketTypes::Kademlia));
    assert!(BucketTypes::from_string("other").is_none());
    assert_eq!(BucketTypes::Kademlia.value(), "Kademlia");
    let t = BucketTypes::MainLine.routing_table(&[1u8; 20]);
    assert_eq!(t.capacity, 5);
    assert!(t.secure_only);
}

#[test]
fn uid_from_hex_and_display() {
    let text = "0123456789abcdefABCDEF000000000000000001";
    let u = UID::from_hex(text).unwrap();
    assert_eq!(u.bid[0], 0x01);
    assert_eq!(u.bid[7], 0xef);
    assert_eq!(u.bid[10], 0xef);
    assert_eq!(u.bid[19], 0x01);
    assert!(UID::from_hex("0123").is_none());
    assert!(UID::from_hex("zz23456789abcdefABCDEF000000000000000001").is_none());
    assert_eq!(u.display(), "012345 6789abcdefabcdef0000000000000000 01");
}

#[test]
fn derived_id_ends_with_its_salt() {
    let ip = IpAddress::V4([124, 31, 75, 21]);
    let id = derive_secure_uid(&ip, &[0xffu8; 20]);
    assert_eq!(id.bid[19], 7);
    assert_eq!(id.bid[18], 0xff);
    assert!(secure_id_matches(&id, &ip));
}
