use vstd::prelude::*;
use crate::crc32c::{crc32c, spec_crc32c};
use crate::net::{
    AddressTypes, IpAddress, SocketAddress, pack_address, read_address, reads_address,
    spec_pack_address, lemma_address_round_trip,
};
use crate::uid::{UID, ID_LENGTH};

verus! {

/// A node is stale once it has missed this many replies in a row.
pub const MAX_STALE_COUNT: u32 = 1;

/// A node contacted within this many milliseconds counts as already queried.
pub const QUERY_TIME: u64 = 5000;

/// A node that responded within this many milliseconds is good.
pub const GOOD_TIME: u64 = 900_000;

/// Length of a compact IPv4 node: identifier, 4 octets, port.
pub const V4_NODE_LENGTH: usize = 26;

/// Length of a compact IPv6 node: identifier, 16 octets, port.
pub const V6_NODE_LENGTH: usize = 38;

/// A peer: its identifier, its endpoint and what has been seen of it
/// (times in milliseconds since the epoch, 0 for never).
#[derive(Copy, Clone, Debug)]
pub struct Node {
    pub uid: UID,
    pub address: SocketAddress,
    pub first_seen: u64,
    pub last_seen: u64,
    pub last_responded: u64,
    pub stale_count: u32,
}

/// Two node records name the same peer: same identifier and same endpoint.
pub open spec fn same_node(a: Node, b: Node) -> bool {
    a.uid@ == b.uid@ && a.address == b.address
}

impl PartialEq for Node {
    fn eq(&self, other: &Node) -> (r: bool)
        ensures
            r == same_node(*self, *other),
    {
        self.uid == other.uid && self.address == other.address
    }
}

impl vstd::std_specs::cmp::PartialEqSpecImpl for Node {
    open spec fn obeys_eq_spec() -> bool {
        true
    }

    open spec fn eq_spec(&self, other: &Node) -> bool {
        same_node(*self, *other)
    }
}

impl Eq for Node {

}

/// The mask applied to the leading octets of an address before its CRC is taken.
pub open spec fn ip_mask(family: AddressTypes) -> Seq<u8> {
    match family {
        AddressTypes::Ipv4 => seq![0x03u8, 0x0Fu8, 0x3Fu8, 0xFFu8],
        AddressTypes::Ipv6 => seq![0x01u8, 0x03u8, 0x07u8, 0x0Fu8, 0x1Fu8, 0x3Fu8, 0x7Fu8, 0xFFu8],
    }
}

/// The octets of `ip` masked, with the three bits of `r` put in the top of the first one.
pub open spec fn spec_masked_ip(ip: IpAddress, r: u8) -> Seq<u8> {
    let m = ip_mask(ip.family());
    Seq::new(
        ip@.len(),
        |i: int|
            {
                let b = if i < m.len() {
                    ip@[i] & m[i]
                } else {
                    ip@[i]
                };
                if i == 0 {
                    b | ((r & 7u8) << 5u8)
                } else {
                    b
                }
            },
    )
}

/// The leading 21 bits of `id` are those of `crc`.
pub open spec fn crc_prefix_matches(id: Seq<u8>, crc: u32) -> bool {
    &&& id[0] == (crc >> 24u32) as u8
    &&& id[1] == (crc >> 16u32) as u8
    &&& id[2] & 0xF8u8 == ((crc >> 8u32) as u8) & 0xF8u8
}

/// The identifier `id` is bound to `ip`: its leading 21 bits are the CRC-32C of the
/// masked address salted with the low three bits of its last byte.
pub open spec fn spec_secure_id(id: Seq<u8>, ip: IpAddress) -> bool {
    crc_prefix_matches(id, spec_crc32c(spec_masked_ip(ip, id[19] & 7u8)))
}

/// The identifier derived for `ip` from 20 random bytes: the salt `r` is the low three
/// bits of the last random byte; the CRC of the masked address salted with `r` fills
/// the leading 21 bits, the random bytes fill bytes 2 (low three bits) to 18, and the
/// last byte is `r`.
pub open spec fn is_derived_uid(ip: IpAddress, random: Seq<u8>, id: Seq<u8>) -> bool {
    let crc = spec_crc32c(spec_masked_ip(ip, random[19] & 7u8));
    &&& id.len() == ID_LENGTH
    &&& id[0] == (crc >> 24u32) as u8
    &&& id[1] == (crc >> 16u32) as u8
    &&& id[2] == (((crc >> 8u32) as u8) & 0xF8u8) | (random[2] & 0x07u8)
    &&& forall|i: int| 3 <= i < ID_LENGTH - 1 ==> id[i] == random[i]
    &&& id[19] == random[19] & 7u8
}

/// The masked, salted octets of an address.
pub fn masked_ip(ip: &IpAddress, r: u8) -> (out: Vec<u8>)
    ensures
        out@ == spec_masked_ip(*ip, r),
{
    let mut out = ip.octets();
    let v4 = match ip {
        IpAddress::V4(_) => true,
        IpAddress::V6(_) => false,
    };
    let mask: [u8; 8] = if v4 {
        [0x03, 0x0F, 0x3F, 0xFF, 0, 0, 0, 0]
    } else {
        [0x01, 0x03, 0x07, 0x0F, 0x1F, 0x3F, 0x7F, 0xFF]
    };
    let n: usize = if v4 {
        4
    } else {
        8
    };
    let ghost m = ip_mask(ip.family());
    assert(m.len() == n);
    assert forall|i: int| 0 <= i < n implies mask@[i] == m[i] by {}
    let mut i: usize = 0;
    while i < n
        invariant
            i <= n,
            n <= out@.len(),
            n == m.len(),
            n <= 8,
            mask@.len() == 8,
            out@.len() == ip@.len(),
            forall|j: int| 0 <= j < n ==> mask@[j] == m[j],
            forall|j: int| 0 <= j < i ==> out@[j] == ip@[j] & m[j],
            forall|j: int| i <= j < out@.len() ==> out@[j] == ip@[j],
        decreases n - i,
    {
        let b = out[i] & mask[i];
        out.set(i, b);
        i = i + 1;
    }
    let first = out[0] | ((r & 7) << 5);
    out.set(0, first);
    assert(out@ =~= spec_masked_ip(*ip, r));
    out
}

/// Whether identifier `id` is bound to address `ip` by the secure-ID scheme.
pub fn secure_id_matches(id: &UID, ip: &IpAddress) -> (r: bool)
    ensures
        r == spec_secure_id(id@, *ip),
{
    let masked = masked_ip(ip, id.bid[19] & 7);
    let crc = crc32c(masked.as_slice());
    id.bid[0] == (crc >> 24) as u8 && id.bid[1] == (crc >> 16) as u8 && id.bid[2] & 0xF8 == ((
    crc >> 8) as u8) & 0xF8
}

/// Derives the identifier bound to `ip` from 20 random bytes.
pub fn derive_secure_uid(ip: &IpAddress, random: &[u8; 20]) -> (r: UID)
    ensures
        is_derived_uid(*ip, random@, r@),
{
    let masked = masked_ip(ip, random[19] & 7);
    let crc = crc32c(masked.as_slice());
    let mut bid: [u8; 20] = *random;
    bid[0] = (crc >> 24) as u8;
    bid[1] = (crc >> 16) as u8;
    bid[2] = ((crc >> 8) as u8 & 0xF8) | (random[2] & 0x07);
    bid[19] = random[19] & 7;
    UID { bid }
}

/// A derived identifier passes the secure-ID check for the address it was derived from.
pub proof fn lemma_derived_uid_is_secure(ip: IpAddress, random: Seq<u8>, id: Seq<u8>)
    requires
        random.len() == ID_LENGTH,
        is_derived_uid(ip, random, id),
    ensures
        spec_secure_id(id, ip),
{
    let crc = spec_crc32c(spec_masked_ip(ip, random[19] & 7u8));
    let c = (crc >> 8u32) as u8;
    let x = random[2];
    let z = random[19];
    assert(((c & 0xF8u8) | (x & 0x07u8)) & 0xF8u8 == c & 0xF8u8) by (bit_vector);
    assert((z & 7u8) & 7u8 == z & 7u8) by (bit_vector);
}

impl Node {
    /// A node never seen yet.
    pub fn new(uid: UID, address: SocketAddress) -> (r: Node)
        ensures
            r.uid == uid,
            r.address == address,
            r.first_seen == 0,
            r.last_seen == 0,
            r.last_responded == 0,
            r.stale_count == 0,
    {
        Node { uid, address, first_seen: 0, last_seen: 0, last_responded: 0, stale_count: 0 }
    }

    pub open spec fn spec_is_stale(&self) -> bool {
        self.stale_count >= MAX_STALE_COUNT
    }

    pub open spec fn spec_has_queried(&self, now: u64) -> bool {
        self.last_seen > 0 && now >= self.last_seen && now - self.last_seen < QUERY_TIME
    }

    pub open spec fn spec_is_good(&self, now: u64) -> bool {
        self.last_responded > 0 && now >= self.last_responded && now - self.last_responded
            < GOOD_TIME
    }

    /// Records that the node was heard from at `now`; it is no longer stale.
    pub fn seen(&mut self, now: u64)
        ensures
            *final(self) == (Node { last_seen: now, stale_count: 0, ..*old(self) }),
    {
        self.last_seen = now;
        self.stale_count = 0;
    }

    /// Records that the node answered a request at `now`.
    pub fn responded(&mut self, now: u64)
        ensures
            *final(self) == (Node { last_seen: now, last_responded: now, stale_count: 0, ..*old(self) }),
    {
        self.last_seen = now;
        self.last_responded = now;
        self.stale_count = 0;
    }

    /// Records a missed reply.
    pub fn mark_stale(&mut self)
        ensures
            *final(self) == (Node {
                stale_count: if old(self).stale_count < u32::MAX {
                    (old(self).stale_count + 1) as u32
                } else {
                    u32::MAX
                },
                ..*old(self)
            }),
    {
        if self.stale_count < u32::MAX {
            self.stale_count = self.stale_count + 1;
        }
    }

    /// Whether the node has missed too many replies.
    pub fn is_stale(&self) -> (r: bool)
        ensures
            r == self.spec_is_stale(),
    {
        self.stale_count >= MAX_STALE_COUNT
    }

    /// Whether the node was contacted less than five seconds before `now`.
    pub fn has_queried(&self, now: u64) -> (r: bool)
        ensures
            r == self.spec_has_queried(now),
    {
        self.last_seen > 0 && now >= self.last_seen && now - self.last_seen < QUERY_TIME
    }

    /// Whether the node responded less than fifteen minutes before `now`.
    pub fn is_good(&self, now: u64) -> (r: bool)
        ensures
            r == self.spec_is_good(now),
    {
        self.last_responded > 0 && now >= self.last_responded && now - self.last_responded
            < GOOD_TIME
    }

    /// Whether the node's identifier is bound to its address.
    pub fn has_secure_id(&self) -> (r: bool)
        ensures
            r == spec_secure_id(self.uid@, self.address.ip),
    {
        secure_id_matches(&self.uid, &self.address.ip)
    }
}

/// Compact form of one node: identifier, octets, port.
pub open spec fn spec_pack_node(n: Node) -> Seq<u8> {
    n.uid@ + spec_pack_address(n.address)
}

/// Compact form of the nodes of family `t`, in order; other nodes are left out.
pub open spec fn spec_pack_nodes(ns: Seq<Node>, t: AddressTypes) -> Seq<u8>
    decreases ns.len(),
{
    if ns.len() == 0 {
        Seq::empty()
    } else {
        spec_pack_nodes(ns.drop_last(), t) + if ns.last().address.ip.family() == t {
            spec_pack_node(ns.last())
        } else {
            Seq::empty()
        }
    }
}

pub open spec fn node_length(t: AddressTypes) -> int {
    match t {
        AddressTypes::Ipv4 => V4_NODE_LENGTH as int,
        AddressTypes::Ipv6 => V6_NODE_LENGTH as int,
    }
}

/// `n` is the node whose compact form starts at offset `off` of `b`.
pub open spec fn reads_node(b: Seq<u8>, off: int, t: AddressTypes, n: Node) -> bool {
    &&& n.uid@ == b.subrange(off, off + ID_LENGTH)
    &&& reads_address(b, off + ID_LENGTH, t == AddressTypes::Ipv6, n.address)
    &&& n.first_seen == 0 && n.last_seen == 0 && n.last_responded == 0 && n.stale_count == 0
}

/// The compact form of the nodes of family `t`.
pub fn pack_nodes(nodes: &Vec<Node>, t: AddressTypes) -> (r: Vec<u8>)
    ensures
        r@ == spec_pack_nodes(nodes@, t),
{
    let mut out: Vec<u8> = Vec::new();
    let mut i: usize = 0;
    while i < nodes.len()
        invariant
            i <= nodes@.len(),
            out@ == spec_pack_nodes(nodes@.take(i as int), t),
        decreases nodes@.len() - i,
    {
        let n = nodes[i];
        assert(nodes@.take(i + 1).drop_last() =~= nodes@.take(i as int));
        if n.address.ip.address_type() == t {
            let mut k: usize = 0;
            let ghost before = out@;
            while k < ID_LENGTH
                invariant
                    k <= ID_LENGTH,
                    n.uid@.len() == ID_LENGTH,
                    out@ =~= before + n.uid@.take(k as int),
                decreases ID_LENGTH - k,
            {
                out.push(n.uid.bid[k]);
                k = k + 1;
            }
            let mut a = pack_address(&n.address);
            out.append(&mut a);
            assert(n.uid@.take(20) =~= n.uid@);
            assert(out@ =~= before + spec_pack_node(n));
        }
        i = i + 1;
    }
    assert(nodes@.take(nodes@.len() as int) =~= nodes@);
    out
}

/// Reads the compact nodes of family `t` from `b`; a trailing partial record is ignored.
pub fn unpack_nodes(b: &[u8], t: AddressTypes) -> (r: Vec<Node>)
    ensures
        r@.len() == b@.len() as int / node_length(t),
        forall|i: int| 0 <= i < r@.len() ==> reads_node(b@, i * node_length(t), t, #[trigger] r@[i]),
{
    let size: usize = match t {
        AddressTypes::Ipv4 => V4_NODE_LENGTH,
        AddressTypes::Ipv6 => V6_NODE_LENGTH,
    };
    let v6 = match t {
        AddressTypes::Ipv4 => false,
        AddressTypes::Ipv6 => true,
    };
    let len = b.len();
    let count = len / size;
    let mut out: Vec<Node> = Vec::new();
    let mut i: usize = 0;
    while i < count
        invariant
            i <= count,
            size as int == node_length(t),
            v6 == (t == AddressTypes::Ipv6),
            count == b@.len() as int / node_length(t),
            len == b@.len(),
            out@.len() == i,
            forall|j: int| 0 <= j < i ==> reads_node(b@, j * node_length(t), t, #[trigger] out@[j]),
        decreases count - i,
    {
        assert(i * size + size <= b@.len()) by (nonlinear_arith)
            requires
                i < count,
                count == b@.len() as int / (size as int),
                size > 0,
        ;
        let off = i * size;
        let mut bid: [u8; 20] = [0u8; 20];
        let mut k: usize = 0;
        while k < ID_LENGTH
            invariant
                k <= ID_LENGTH,
                off + size <= b@.len(),
                len == b@.len(),
                size >= 26,
                bid@.len() == 20,
                forall|j: int| 0 <= j < k ==> bid@[j] == b@[off + j],
            decreases ID_LENGTH - k,
        {
            bid[k] = b[off + k];
            k = k + 1;
        }
        let address = read_address(b, off + ID_LENGTH, v6);
        let node = Node::new(UID { bid }, address);
        assert(node.uid@ =~= b@.subrange(off as int, off + 20));
        out.push(node);
        i = i + 1;
    }
    out
}

proof fn lemma_pack_nodes_layout(ns: Seq<Node>, t: AddressTypes)
    requires
        forall|i: int| 0 <= i < ns.len() ==> (#[trigger] ns[i]).address.ip.family() == t,
    ensures
        spec_pack_nodes(ns, t).len() == ns.len() * node_length(t),
        forall|i: int|
            0 <= i < ns.len() ==> spec_pack_nodes(ns, t).subrange(
                i * node_length(t),
                i * node_length(t) + node_length(t),
            ) == spec_pack_node(#[trigger] ns[i]),
    decreases ns.len(),
{
    if ns.len() > 0 {
        let init = ns.drop_last();
        lemma_pack_nodes_layout(init, t);
        let p = spec_pack_nodes(init, t);
        let l = ns.last();
        let n = node_length(t);
        assert(l.address.ip.family() == t);
        assert(spec_pack_node(l).len() == n) by {
            match l.address.ip {
                IpAddress::V4(x) => {},
                IpAddress::V6(x) => {},
            }
        }
        let full = spec_pack_nodes(ns, t);
        assert(full == p + spec_pack_node(l));
        assert((ns.len() - 1) * n + n == ns.len() * n) by (nonlinear_arith);
        assert forall|i: int| 0 <= i < ns.len() implies full.subrange(i * n, i * n + n)
            == spec_pack_node(#[trigger] ns[i]) by {
            assert(0 <= i * n) by (nonlinear_arith)
                requires
                    0 <= i,
                    n > 0,
            ;
            if i < ns.len() - 1 {
                assert(i * n + n <= (ns.len() - 1) * n) by (nonlinear_arith)
                    requires
                        i < ns.len() - 1,
                        n > 0,
                ;
                assert(init[i] == ns[i]);
                assert(full.subrange(i * n, i * n + n) =~= p.subrange(i * n, i * n + n));
            } else {
                assert(full.subrange(i * n, i * n + n) =~= spec_pack_node(l));
            }
        }
    } else {
        assert(0 * node_length(t) == 0);
    }
}

/// Reading back the compact form of nodes of one family gives the same identifiers and
/// endpoints, in the same order.
pub proof fn lemma_nodes_round_trip(ns: Seq<Node>, t: AddressTypes, r: Seq<Node>)
    requires
        forall|i: int| 0 <= i < ns.len() ==> (#[trigger] ns[i]).address.ip.family() == t,
        r.len() == spec_pack_nodes(ns, t).len() as int / node_length(t),
        forall|i: int|
            0 <= i < r.len() ==> reads_node(spec_pack_nodes(ns, t), i * node_length(t), t, #[trigger] r[i]),
    ensures
        r.len() == ns.len(),
        forall|i: int| 0 <= i < ns.len() ==> same_node(#[trigger] r[i], ns[i]),
{
    lemma_pack_nodes_layout(ns, t);
    let b = spec_pack_nodes(ns, t);
    let n = node_length(t);
    assert(n > 0);
    assert(ns.len() * n / n == ns.len()) by (nonlinear_arith)
        requires
            n > 0,
    ;
    assert forall|i: int| 0 <= i < ns.len() implies same_node(#[trigger] r[i], ns[i]) by {
        assert(0 <= i * n) by (nonlinear_arith)
            requires
                0 <= i,
                n > 0,
        ;
        assert(i * n + n <= b.len()) by (nonlinear_arith)
            requires
                0 <= i < ns.len(),
                n > 0,
                b.len() == ns.len() * n,
        ;
        let seg = b.subrange(i * n, i * n + n);
        assert(seg == spec_pack_node(ns[i]));
        assert(r[i].uid@ =~= seg.subrange(0, 20));
        assert(r[i].uid@ =~= ns[i].uid@);
        let pa = spec_pack_address(ns[i].address);
        assert(pa =~= seg.subrange(20, n));
        assert forall|k: int| 0 <= k < pa.len() implies b[i * n + 20 + k] == pa[k] by {
            assert(seg[20 + k] == b[i * n + 20 + k]);
        }
        assert(reads_address(pa, 0, t == AddressTypes::Ipv6, r[i].address)) by {
            let m: int = if t == AddressTypes::Ipv6 {
                16
            } else {
                4
            };
            assert(b.subrange(i * n + 20, i * n + 20 + m) =~= pa.subrange(0, m));
        }
        lemma_address_round_trip(ns[i].address, r[i].address);
    }
}


/// Packing a concatenation packs each part in turn.
pub proof fn lemma_pack_nodes_append(a: Seq<Node>, b: Seq<Node>, t: AddressTypes)
    ensures
        spec_pack_nodes(a + b, t) == spec_pack_nodes(a, t) + spec_pack_nodes(b, t),
    decreases b.len(),
{
    if b.len() == 0 {
        assert(a + b =~= a);
        assert(spec_pack_nodes(a, t) + spec_pack_nodes(b, t) =~= spec_pack_nodes(a, t));
    } else {
        lemma_pack_nodes_append(a, b.drop_last(), t);
        assert((a + b).drop_last() =~= a + b.drop_last());
        assert((a + b).last() == b.last());
        let x = if b.last().address.ip.family() == t {
            spec_pack_node(b.last())
        } else {
            Seq::empty()
        };
        assert(spec_pack_nodes(a, t) + spec_pack_nodes(b.drop_last(), t) + x =~= spec_pack_nodes(a, t) + (spec_pack_nodes(b.drop_last(), t) + x));
    }
}

/// Nodes of another family pack to nothing.
pub proof fn lemma_pack_nodes_other(s: Seq<Node>, t: AddressTypes)
    requires
        forall|i: int| 0 <= i < s.len() ==> (#[trigger] s[i]).address.ip.family() != t,
    ensures
        spec_pack_nodes(s, t) == Seq::<u8>::empty(),
    decreases s.len(),
{
    if s.len() > 0 {
        lemma_pack_nodes_other(s.drop_last(), t);
        assert(s.last() == s[s.len() - 1]);
        assert(spec_pack_nodes(s, t) =~= Seq::<u8>::empty());
    }
}

} // verus!
