use vstd::prelude::*;
use crate::net::{IpAddress, is_global_unicast, spec_global_unicast};
use crate::node::{Node, spec_secure_id, derive_secure_uid, is_derived_uid, same_node};
use crate::uid::{UID, spec_distance, xor_seq, ID_BITS, lemma_distance_positive, lemma_xor_injective};
use crate::vote::{majority_vote, is_strict_majority};
use crate::order::{lex_lt, lex_less, lemma_lex_lt_transitive, lemma_lex_lt_total, lemma_lex_lt_irreflexive};

verus! {

/// Bucket capacity of the Kademlia table.
pub const KADEMLIA_BUCKET_SIZE: usize = 8;

/// Bucket capacity of the Mainline table.
pub const MAINLINE_BUCKET_SIZE: usize = 5;

/// One bucket per XOR distance, 0 to 160; bucket 0 would hold the local identifier
/// and stays empty.
pub const BUCKET_COUNT: usize = 161;

/// Most reporter / observed-address pairs kept for the public-address vote.
pub const MAX_ORIGIN_PAIRS: usize = 64;

/// The vote runs once more than this many pairs are kept.
pub const CONSENSUS_THRESHOLD: usize = 20;

/// Two addresses lie in the same /24 (IPv4) or /64 (IPv6) network.
pub open spec fn same_prefix(a: IpAddress, b: IpAddress) -> bool {
    match (a, b) {
        (IpAddress::V4(x), IpAddress::V4(y)) => x@.subrange(0, 3) == y@.subrange(0, 3),
        (IpAddress::V6(x), IpAddress::V6(y)) => x@.subrange(0, 8) == y@.subrange(0, 8),
        _ => false,
    }
}

fn prefix_equal(a: &[u8], b: &[u8], n: usize) -> (r: bool)
    requires
        n <= a@.len(),
        n <= b@.len(),
    ensures
        r == (a@.subrange(0, n as int) == b@.subrange(0, n as int)),
{
    let mut i: usize = 0;
    while i < n
        invariant
            i <= n,
            n <= a@.len(),
            n <= b@.len(),
            forall|j: int| 0 <= j < i ==> a@[j] == b@[j],
        decreases n - i,
    {
        if a[i] != b[i] {
            assert(a@.subrange(0, n as int)[i as int] != b@.subrange(0, n as int)[i as int]);
            return false;
        }
        i = i + 1;
    }
    assert(a@.subrange(0, n as int) =~= b@.subrange(0, n as int));
    true
}

/// Whether two addresses lie in the same /24 (IPv4) or /64 (IPv6) network.
pub fn shares_prefix(a: &IpAddress, b: &IpAddress) -> (r: bool)
    ensures
        r == same_prefix(*a, *b),
{
    match (a, b) {
        (IpAddress::V4(x), IpAddress::V4(y)) => prefix_equal(x, y, 3),
        (IpAddress::V6(x), IpAddress::V6(y)) => prefix_equal(x, y, 8),
        _ => false,
    }
}

/// The live nodes of one distance band, least recently added first, and the
/// replacement cache of candidates that found the band full.
pub struct KBucket {
    pub nodes: Vec<Node>,
    pub cache: Vec<Node>,
}

/// `j` is the first stale position of `s`.
pub open spec fn is_first_stale(s: Seq<Node>, j: int) -> bool {
    &&& 0 <= j < s.len()
    &&& s[j].spec_is_stale()
    &&& forall|k: int| 0 <= k < j ==> !(#[trigger] s[k]).spec_is_stale()
}

/// Whether some node of `s` has identifier `u`.
pub open spec fn holds_uid(s: Seq<Node>, u: Seq<u8>) -> bool {
    exists|i: int| 0 <= i < s.len() && (#[trigger] s[i]).uid@ == u
}

impl KBucket {
    /// An empty bucket.
    pub fn new() -> (r: KBucket)
        ensures
            r.nodes@ == Seq::<Node>::empty(),
            r.cache@ == Seq::<Node>::empty(),
    {
        KBucket { nodes: Vec::new(), cache: Vec::new() }
    }

    /// Position of the live node with identifier `u`.
    pub fn index_of_uid(&self, u: &UID) -> (r: Option<usize>)
        ensures
            r is Some ==> r->0 < self.nodes@.len() && self.nodes@[r->0 as int].uid@ == u@,
            r is None ==> !holds_uid(self.nodes@, u@),
    {
        find_uid(&self.nodes, u)
    }

    /// Position of the first stale live node.
    pub fn first_stale(&self) -> (r: Option<usize>)
        ensures
            r is Some ==> is_first_stale(self.nodes@, r->0 as int),
            r is None ==> forall|k: int|
                0 <= k < self.nodes@.len() ==> !(#[trigger] self.nodes@[k]).spec_is_stale(),
    {
        let mut i: usize = 0;
        while i < self.nodes.len()
            invariant
                i <= self.nodes@.len(),
                forall|k: int| 0 <= k < i ==> !(#[trigger] self.nodes@[k]).spec_is_stale(),
            decreases self.nodes@.len() - i,
        {
            if self.nodes[i].is_stale() {
                return Some(i);
            }
            i = i + 1;
        }
        None
    }

    /// Whether the bucket holds `capacity` live nodes or more.
    pub fn is_full(&self, capacity: usize) -> (r: bool)
        ensures
            r == (self.nodes@.len() >= capacity),
    {
        self.nodes.len() >= capacity
    }
}

/// Position of the node with identifier `u` in `s`.
pub fn find_uid(s: &Vec<Node>, u: &UID) -> (r: Option<usize>)
    ensures
        r is Some ==> r->0 < s@.len() && s@[r->0 as int].uid@ == u@,
        r is None ==> !holds_uid(s@, u@),
{
    let mut i: usize = 0;
    while i < s.len()
        invariant
            i <= s@.len(),
            forall|k: int| 0 <= k < i ==> (#[trigger] s@[k]).uid@ != u@,
        decreases s@.len() - i,
    {
        if s[i].uid == *u {
            return Some(i);
        }
        i = i + 1;
    }
    None
}

/// The replacement cache after `n` asked for a place in a full band: a node already
/// cached keeps its place; otherwise `n` goes to the back, and the front entry makes
/// room when the cache is full.
pub open spec fn cached_after(cache: Seq<Node>, n: Node, capacity: int) -> Seq<Node> {
    if holds_uid(cache, n.uid@) {
        cache
    } else if cache.len() >= capacity {
        cache.drop_first().push(n)
    } else {
        cache.push(n)
    }
}

/// A bucket `nodes` for distance `d` that keeps the table's invariant: its nodes lie at
/// distance `d`, are unique, and share no network with each other or with the other
/// buckets of `t`.
pub open spec fn bucket_fits(t: RoutingTable, d: int, nodes: Seq<Node>, cache: Seq<Node>) -> bool {
    &&& 1 <= d < BUCKET_COUNT
    &&& nodes.len() <= t.capacity
    &&& cache.len() <= t.capacity
    &&& forall|x: int| 0 <= x < nodes.len() ==> spec_distance(t.uid@, (#[trigger] nodes[x]).uid@) == d
    &&& forall|x: int, y: int|
        0 <= x < nodes.len() && 0 <= y < nodes.len() && x != y ==> (#[trigger] nodes[x]).uid@
            != (#[trigger] nodes[y]).uid@ && !same_prefix(nodes[x].address.ip, nodes[y].address.ip)
    &&& forall|x: int, e: int, i: int|
        0 <= x < nodes.len() && t.has_slot(e, i) && e != d ==> !same_prefix(
            (#[trigger] nodes[x]).address.ip,
            (#[trigger] t.node_at(e, i)).address.ip,
        )
}

/// Every node of `nodes` has an identifier bound to its address.
pub open spec fn all_secure_seq(nodes: Seq<Node>) -> bool {
    forall|x: int| 0 <= x < nodes.len() ==> spec_secure_id((#[trigger] nodes[x]).uid@, nodes[x].address.ip)
}

proof fn lemma_same_keys_fit(t: RoutingTable, d: int, old: Seq<Node>, nodes: Seq<Node>, cache: Seq<Node>)
    requires
        bucket_fits(t, d, old, cache),
        nodes.len() == old.len(),
        forall|x: int| 0 <= x < nodes.len() ==> (#[trigger] nodes[x]).uid@ == old[x].uid@
            && nodes[x].address == old[x].address,
    ensures
        bucket_fits(t, d, nodes, cache),
        all_secure_seq(old) ==> all_secure_seq(nodes),
{
    assert forall|x: int, y: int|
        0 <= x < nodes.len() && 0 <= y < nodes.len() && x != y implies (#[trigger] nodes[x]).uid@
            != (#[trigger] nodes[y]).uid@ && !same_prefix(nodes[x].address.ip, nodes[y].address.ip) by {
        assert(old[x].uid@ != old[y].uid@);
    }
    assert forall|x: int, e: int, i: int|
        0 <= x < nodes.len() && t.has_slot(e, i) && e != d implies !same_prefix(
            (#[trigger] nodes[x]).address.ip,
            (#[trigger] t.node_at(e, i)).address.ip,
        ) by {
        assert(!same_prefix(old[x].address.ip, t.node_at(e, i).address.ip));
    }
    if all_secure_seq(old) {
        assert forall|x: int| 0 <= x < nodes.len() implies spec_secure_id((#[trigger] nodes[x]).uid@, nodes[x].address.ip) by {
            assert(spec_secure_id(old[x].uid@, old[x].address.ip));
        }
    }
}

proof fn lemma_push_fits(t: RoutingTable, d: int, nodes: Seq<Node>, cache: Seq<Node>, n: Node)
    requires
        bucket_fits(t, d, nodes, cache),
        nodes.len() < t.capacity,
        spec_distance(t.uid@, n.uid@) == d,
        !holds_uid(nodes, n.uid@),
        forall|x: int| 0 <= x < nodes.len() ==> !same_prefix((#[trigger] nodes[x]).address.ip, n.address.ip),
        forall|e: int, i: int| t.has_slot(e, i) && e != d ==> !same_prefix(n.address.ip, (#[trigger] t.node_at(e, i)).address.ip),
    ensures
        bucket_fits(t, d, nodes.push(n), cache),
        all_secure_seq(nodes) && spec_secure_id(n.uid@, n.address.ip) ==> all_secure_seq(nodes.push(n)),
{
    let nn = nodes.push(n);
    let l = nodes.len() as int;
    assert forall|x: int, y: int|
        0 <= x < nn.len() && 0 <= y < nn.len() && x != y implies (#[trigger] nn[x]).uid@
            != (#[trigger] nn[y]).uid@ && !same_prefix(nn[x].address.ip, nn[y].address.ip) by {
        if x == l {
            assert(nodes[y].uid@ != n.uid@);
            assert(!same_prefix(nodes[y].address.ip, n.address.ip));
        } else if y == l {
            assert(nodes[x].uid@ != n.uid@);
            assert(!same_prefix(nodes[x].address.ip, n.address.ip));
        }
    }
    assert forall|x: int, e: int, i: int|
        0 <= x < nn.len() && t.has_slot(e, i) && e != d implies !same_prefix(
            (#[trigger] nn[x]).address.ip,
            (#[trigger] t.node_at(e, i)).address.ip,
        ) by {
        if x < l {
            assert(nn[x] == nodes[x]);
        }
    }
    assert forall|x: int| 0 <= x < nn.len() implies spec_distance(t.uid@, (#[trigger] nn[x]).uid@) == d by {
        if x < l {
            assert(nn[x] == nodes[x]);
        }
    }
    if all_secure_seq(nodes) && spec_secure_id(n.uid@, n.address.ip) {
        assert forall|x: int| 0 <= x < nn.len() implies spec_secure_id((#[trigger] nn[x]).uid@, nn[x].address.ip) by {
            if x < l {
                assert(nn[x] == nodes[x]);
            }
        }
    }
}

proof fn lemma_remove_fits(t: RoutingTable, d: int, nodes: Seq<Node>, cache: Seq<Node>, j: int)
    requires
        bucket_fits(t, d, nodes, cache),
        0 <= j < nodes.len(),
    ensures
        bucket_fits(t, d, nodes.remove(j), cache),
        all_secure_seq(nodes) ==> all_secure_seq(nodes.remove(j)),
        forall|x: int| 0 <= x < nodes.len() - 1 ==> #[trigger] nodes.remove(j)[x] == if x < j {
            nodes[x]
        } else {
            nodes[x + 1]
        },
{
    let nn = nodes.remove(j);
    assert forall|x: int| 0 <= x < nn.len() implies #[trigger] nn[x] == if x < j {
        nodes[x]
    } else {
        nodes[x + 1]
    } by {}
    assert forall|x: int, y: int|
        0 <= x < nn.len() && 0 <= y < nn.len() && x != y implies (#[trigger] nn[x]).uid@
            != (#[trigger] nn[y]).uid@ && !same_prefix(nn[x].address.ip, nn[y].address.ip) by {
        let ox = if x < j { x } else { x + 1 };
        let oy = if y < j { y } else { y + 1 };
        assert(nn[x] == nodes[ox] && nn[y] == nodes[oy] && ox != oy);
    }
    assert forall|x: int, e: int, i: int|
        0 <= x < nn.len() && t.has_slot(e, i) && e != d implies !same_prefix(
            (#[trigger] nn[x]).address.ip,
            (#[trigger] t.node_at(e, i)).address.ip,
        ) by {
        let ox = if x < j { x } else { x + 1 };
        assert(nn[x] == nodes[ox]);
    }
    assert forall|x: int| 0 <= x < nn.len() implies spec_distance(t.uid@, (#[trigger] nn[x]).uid@) == d by {
        let ox = if x < j { x } else { x + 1 };
        assert(nn[x] == nodes[ox]);
    }
    if all_secure_seq(nodes) {
        assert forall|x: int| 0 <= x < nn.len() implies spec_secure_id((#[trigger] nn[x]).uid@, nn[x].address.ip) by {
            let ox = if x < j { x } else { x + 1 };
            assert(nn[x] == nodes[ox]);
        }
    }
}

/// A node whose network holds no live node shares no network with the nodes of bucket
/// `d` nor with those of the other buckets.
proof fn lemma_no_prefix(t: RoutingTable, d: int, nodes: Seq<Node>, n: Node)
    requires
        t.wf(),
        1 <= d < BUCKET_COUNT,
        nodes == t.buckets@[d].nodes@,
        !t.prefix_taken(n.address.ip),
    ensures
        forall|x: int| 0 <= x < nodes.len() ==> !same_prefix((#[trigger] nodes[x]).address.ip, n.address.ip),
        forall|e: int, i: int| t.has_slot(e, i) && e != d ==> !same_prefix(n.address.ip, (#[trigger] t.node_at(e, i)).address.ip),
{
    assert forall|x: int| 0 <= x < nodes.len() implies !same_prefix((#[trigger] nodes[x]).address.ip, n.address.ip) by {
        assert(t.has_slot(d, x));
        assert(t.node_at(d, x) == nodes[x]);
    }
    assert forall|e: int, i: int| t.has_slot(e, i) && e != d implies !same_prefix(n.address.ip, (#[trigger] t.node_at(e, i)).address.ip) by {
        assert(!same_prefix(t.node_at(e, i).address.ip, n.address.ip));
    }
}

proof fn lemma_bucket_fits(t: RoutingTable, s: RoutingTable, d: int, nodes: Seq<Node>, cache: Seq<Node>)
    requires
        t.wf(),
        bucket_fits(t, d, nodes, cache),
        s.with_bucket(t, d, nodes, cache),
        t.secure_only && t.all_secure() ==> all_secure_seq(nodes),
    ensures
        s.wf(),
        t.secure_only && t.all_secure() ==> s.all_secure(),
{
    assert(s.buckets@[0] == t.buckets@[0]);
    assert forall|e: int| 0 <= e < BUCKET_COUNT implies (#[trigger] s.buckets@[e]).nodes@.len() <= s.capacity
        && s.buckets@[e].cache@.len() <= s.capacity by {
        if e != d {
            assert(s.buckets@[e] == t.buckets@[e]);
        }
    }
    assert forall|e: int, i: int| s.has_slot(e, i) implies spec_distance(s.uid@, (#[trigger] s.node_at(e, i)).uid@) == e by {
        if e != d {
            assert(s.buckets@[e] == t.buckets@[e]);
            assert(t.has_slot(e, i));
            assert(t.node_at(e, i) == s.node_at(e, i));
        }
    }
    assert forall|e: int, i: int, j: int|
        s.has_slot(e, i) && s.has_slot(e, j) && i != j implies (#[trigger] s.node_at(e, i)).uid@
        != (#[trigger] s.node_at(e, j)).uid@ by {
        if e != d {
            assert(s.buckets@[e] == t.buckets@[e]);
            assert(t.node_at(e, i) == s.node_at(e, i));
            assert(t.node_at(e, j) == s.node_at(e, j));
        }
    }
    assert forall|d1: int, i1: int, d2: int, i2: int|
        s.has_slot(d1, i1) && s.has_slot(d2, i2) && (d1 != d2 || i1 != i2) implies !same_prefix(
        (#[trigger] s.node_at(d1, i1)).address.ip,
        (#[trigger] s.node_at(d2, i2)).address.ip,
    ) by {
        if d1 != d {
            assert(s.buckets@[d1] == t.buckets@[d1]);
            assert(t.node_at(d1, i1) == s.node_at(d1, i1));
        }
        if d2 != d {
            assert(s.buckets@[d2] == t.buckets@[d2]);
            assert(t.node_at(d2, i2) == s.node_at(d2, i2));
        }
        if d1 == d && d2 != d {
            assert(t.has_slot(d2, i2));
            assert(!same_prefix(nodes[i1].address.ip, t.node_at(d2, i2).address.ip));
        } else if d1 != d && d2 == d {
            assert(t.has_slot(d1, i1));
            assert(!same_prefix(nodes[i2].address.ip, t.node_at(d1, i1).address.ip));
        } else if d1 != d && d2 != d {
            assert(t.has_slot(d1, i1));
            assert(t.has_slot(d2, i2));
        }
    }
    if t.secure_only && t.all_secure() {
        assert forall|e: int, i: int| s.has_slot(e, i) implies spec_secure_id(
            (#[trigger] s.node_at(e, i)).uid@,
            s.node_at(e, i).address.ip,
        ) by {
            if e != d {
                assert(s.buckets@[e] == t.buckets@[e]);
                assert(t.has_slot(e, i));
                assert(t.node_at(e, i) == s.node_at(e, i));
            }
        }
    }
}

/// The nodes of bucket `d` of a well-formed table fit in it.
proof fn lemma_current_bucket_fits(t: RoutingTable, d: int)
    requires
        t.wf(),
        1 <= d < BUCKET_COUNT,
    ensures
        bucket_fits(t, d, t.buckets@[d].nodes@, t.buckets@[d].cache@),
        t.all_secure() ==> all_secure_seq(t.buckets@[d].nodes@),
        forall|x: int| 0 <= x < t.buckets@[d].nodes@.len() ==> #[trigger] t.buckets@[d].nodes@[x] == t.node_at(d, x),
{
    let nodes = t.buckets@[d].nodes@;
    if t.all_secure() {
        assert forall|x: int| 0 <= x < nodes.len() implies spec_secure_id((#[trigger] nodes[x]).uid@, nodes[x].address.ip) by {
            assert(t.has_slot(d, x));
            assert(t.node_at(d, x) == nodes[x]);
        }
    }
    assert forall|x: int| 0 <= x < nodes.len() implies spec_distance(t.uid@, (#[trigger] nodes[x]).uid@) == d by {
        assert(t.has_slot(d, x));
        assert(t.node_at(d, x) == nodes[x]);
    }
    assert forall|x: int, y: int|
        0 <= x < nodes.len() && 0 <= y < nodes.len() && x != y implies (#[trigger] nodes[x]).uid@
            != (#[trigger] nodes[y]).uid@ && !same_prefix(nodes[x].address.ip, nodes[y].address.ip) by {
        assert(t.has_slot(d, x) && t.has_slot(d, y));
        assert(t.node_at(d, x) == nodes[x]);
        assert(t.node_at(d, y) == nodes[y]);
    }
    assert forall|x: int, e: int, i: int|
        0 <= x < nodes.len() && t.has_slot(e, i) && e != d implies !same_prefix(
            (#[trigger] nodes[x]).address.ip,
            (#[trigger] t.node_at(e, i)).address.ip,
        ) by {
        assert(t.has_slot(d, x));
        assert(t.node_at(d, x) == nodes[x]);
    }
}

/// The node invariants of a table depend on its identifier, capacity and buckets alone.
proof fn lemma_nodes_unchanged(t: RoutingTable, s: RoutingTable)
    requires
        t.wf(),
        s.buckets@ == t.buckets@,
        s.uid == t.uid,
        s.capacity == t.capacity,
    ensures
        s.sizes_ok(),
        s.distances_ok(),
        s.unique_ok(),
        t.all_secure() ==> s.all_secure(),
{
    assert forall|d: int, i: int| #[trigger] s.node_at(d, i) == t.node_at(d, i) && s.has_slot(d, i) == t.has_slot(d, i) by {}
    assert forall|d: int| 0 <= d < BUCKET_COUNT implies (#[trigger] s.buckets@[d]).nodes@.len() <= s.capacity
        && s.buckets@[d].cache@.len() <= s.capacity by {
        assert(s.buckets@[d] == t.buckets@[d]);
    }
    assert forall|d: int, i: int|
        s.has_slot(d, i) implies spec_distance(s.uid@, (#[trigger] s.node_at(d, i)).uid@) == d by {
        assert(t.has_slot(d, i));
    }
    assert forall|d: int, i: int, j: int|
        s.has_slot(d, i) && s.has_slot(d, j) && i != j implies (#[trigger] s.node_at(d, i)).uid@
            != (#[trigger] s.node_at(d, j)).uid@ by {
        assert(t.has_slot(d, i) && t.has_slot(d, j));
    }
    assert forall|d1: int, i1: int, d2: int, i2: int|
        s.has_slot(d1, i1) && s.has_slot(d2, i2) && (d1 != d2 || i1 != i2) implies !same_prefix(
            (#[trigger] s.node_at(d1, i1)).address.ip,
            (#[trigger] s.node_at(d2, i2)).address.ip,
        ) by {
        assert(t.has_slot(d1, i1) && t.has_slot(d2, i2));
    }
    if t.all_secure() {
        assert forall|d: int, i: int| s.has_slot(d, i) implies spec_secure_id(
            (#[trigger] s.node_at(d, i)).uid@,
            s.node_at(d, i).address.ip,
        ) by {
            assert(t.has_slot(d, i));
        }
    }
}

/// Some node of `s` is a record of the same peer as `m`.
pub open spec fn sourced(m: Node, s: Seq<Node>) -> bool {
    exists|y: int| 0 <= y < s.len() && same_node(#[trigger] s[y], m)
}

/// Every live node is a record of a live peer.
proof fn lemma_holds_own_peers(t: RoutingTable)
    ensures
        forall|e: int, k: int| t.has_slot(e, k) ==> t.holds_peer(#[trigger] t.node_at(e, k)),
{
    assert forall|e: int, k: int| t.has_slot(e, k) implies t.holds_peer(#[trigger] t.node_at(e, k)) by {
        assert(same_node(t.node_at(e, k), t.node_at(e, k)));
    }
}

/// What offering `n`, seen at `now`, to table `t` makes of it (`s`): a node that is not
/// admitted leaves it as it is; otherwise, in the bucket of its distance, a node already
/// there is refreshed, a node whose network already holds a live node is ignored, else
/// it is appended while the bucket has room, replaces the first stale node when it is
/// full, and goes to the replacement cache when no node is stale.
pub open spec fn insert_effect(t: RoutingTable, s: RoutingTable, n: Node, now: u64) -> bool {
    &&& !t.admits(n) ==> s == t
    &&& t.admits(n) ==> {
        let d = spec_distance(t.uid@, n.uid@);
        let nodes = t.buckets@[d].nodes@;
        let cache = t.buckets@[d].cache@;
        &&& 1 <= d <= ID_BITS
        &&& forall|i: int|
            0 <= i < nodes.len() && (#[trigger] nodes[i]).uid@ == n.uid@
                ==> s.with_bucket(
                t,
                d,
                nodes.update(i, Node { last_seen: now, stale_count: 0, ..nodes[i] }),
                cache,
            )
        &&& !holds_uid(nodes, n.uid@) && t.prefix_taken(n.address.ip)
            ==> s == t
        &&& !holds_uid(nodes, n.uid@) && !t.prefix_taken(n.address.ip)
            && nodes.len() < t.capacity ==> s.with_bucket(
            t,
            d,
            nodes.push(n),
            cache,
        )
        &&& forall|j: int|
            !holds_uid(nodes, n.uid@) && !t.prefix_taken(n.address.ip)
                && nodes.len() >= t.capacity && is_first_stale(nodes, j)
                ==> s.with_bucket(t, d, nodes.remove(j).push(n), cache)
        &&& !holds_uid(nodes, n.uid@) && !t.prefix_taken(n.address.ip)
            && nodes.len() >= t.capacity && (forall|k: int|
            0 <= k < nodes.len() ==> !(#[trigger] nodes[k]).spec_is_stale())
            ==> s.with_bucket(
            t,
            d,
            nodes,
            cached_after(cache, n, t.capacity as int),
        )
    }
}

/// `s` is `t` where the live node with identifier `u`, if any, missed one more reply.
pub open spec fn stale_marked(t: RoutingTable, s: RoutingTable, u: Seq<u8>) -> bool {
    let d = spec_distance(t.uid@, u);
    let nodes = t.buckets@[d].nodes@;
    &&& forall|i: int|
        0 <= i < nodes.len() && (#[trigger] nodes[i]).uid@ == u ==> s.with_bucket(
            t,
            d,
            nodes.update(i, Node {
                stale_count: if nodes[i].stale_count < u32::MAX {
                    (nodes[i].stale_count + 1) as u32
                } else {
                    u32::MAX
                },
                ..nodes[i]
            }),
            t.buckets@[d].cache@,
        )
    &&& !holds_uid(nodes, u) ==> s == t
}

/// `s` is `t` where the live node with identifier `u`, if any, was heard from at `now`.
pub open spec fn seen_marked(t: RoutingTable, s: RoutingTable, u: Seq<u8>, now: u64) -> bool {
    let d = spec_distance(t.uid@, u);
    let nodes = t.buckets@[d].nodes@;
    &&& forall|i: int|
        0 <= i < nodes.len() && (#[trigger] nodes[i]).uid@ == u ==> s.with_bucket(
            t,
            d,
            nodes.update(i, Node { last_seen: now, stale_count: 0, ..nodes[i] }),
            t.buckets@[d].cache@,
        )
    &&& !holds_uid(nodes, u) ==> s == t
}

/// `s` is what offering the nodes `ns`, in turn and each at its own last-seen time, makes
/// of an empty table with the identifier, address vote and settings of `s`.
pub open spec fn refiled_from(ns: Seq<Node>, steps: Seq<RoutingTable>, s: RoutingTable) -> bool {
    &&& steps.len() == ns.len() + 1
    &&& steps[0].uid == s.uid
    &&& steps[0].consensus_external_address == s.consensus_external_address
    &&& steps[0].origin_pairs@ == s.origin_pairs@
    &&& steps[0].secure_only == s.secure_only
    &&& steps[0].capacity == s.capacity
    &&& steps[0].buckets@.len() == BUCKET_COUNT
    &&& forall|d: int| 0 <= d < BUCKET_COUNT ==> (#[trigger] steps[0].buckets@[d]).nodes@.len() == 0
        && steps[0].buckets@[d].cache@.len() == 0
    &&& steps[ns.len() as int] == s
    &&& forall|k: int| 0 <= k < ns.len() ==> insert_effect(steps[k], steps[k + 1], #[trigger] ns[k], ns[k].last_seen)
}

/// `ns` lists the live nodes of `t`, each of them at least once and nothing else.
pub open spec fn lists_live(t: RoutingTable, ns: Seq<Node>) -> bool {
    &&& forall|k: int| 0 <= k < ns.len() ==> t.is_live(#[trigger] ns[k])
    &&& forall|d: int, i: int| t.has_slot(d, i) ==> ns.contains(#[trigger] t.node_at(d, i))
}

/// `s` holds the live nodes of `t` filed again: some listing of them offered in turn to
/// an empty table with the identifier and settings of `s` gives `s`.
pub open spec fn refiled(t: RoutingTable, s: RoutingTable) -> bool {
    exists|ns: Seq<Node>, steps: Seq<RoutingTable>|
        #![trigger lists_live(t, ns), refiled_from(ns, steps, s)]
        lists_live(t, ns) && refiled_from(ns, steps, s)
}

proof fn lemma_refiled_same_buckets(t1: RoutingTable, t2: RoutingTable, s: RoutingTable)
    requires
        refiled(t1, s),
        t1.buckets@ == t2.buckets@,
    ensures
        refiled(t2, s),
{
    let (ns, steps) = choose|ns: Seq<Node>, steps: Seq<RoutingTable>|
        #![trigger lists_live(t1, ns), refiled_from(ns, steps, s)]
        lists_live(t1, ns) && refiled_from(ns, steps, s);
    assert forall|d: int, i: int| #[trigger] t2.node_at(d, i) == t1.node_at(d, i) && t2.has_slot(d, i) == t1.has_slot(d, i) by {}
    assert forall|k: int| 0 <= k < ns.len() implies t2.is_live(#[trigger] ns[k]) by {
        let (d, i) = choose|d: int, i: int| t1.has_slot(d, i) && t1.node_at(d, i) == ns[k];
        assert(t2.has_slot(d, i) && t2.node_at(d, i) == ns[k]);
    }
    assert forall|d: int, i: int| t2.has_slot(d, i) implies ns.contains(#[trigger] t2.node_at(d, i)) by {
        assert(t1.has_slot(d, i));
    }
    assert(lists_live(t2, ns));
}

/// `s` is `t` where the live node with identifier `u`, if any, answered at `now`.
pub open spec fn responded_marked(t: RoutingTable, s: RoutingTable, u: Seq<u8>, now: u64) -> bool {
    let d = spec_distance(t.uid@, u);
    let nodes = t.buckets@[d].nodes@;
    &&& forall|i: int|
        0 <= i < nodes.len() && (#[trigger] nodes[i]).uid@ == u ==> s.with_bucket(
            t,
            d,
            nodes.update(i, Node { last_seen: now, last_responded: now, stale_count: 0, ..nodes[i] }),
            t.buckets@[d].cache@,
        )
    &&& !holds_uid(nodes, u) ==> s == t
}

/// The routing table: 161 buckets indexed by XOR distance to the local identifier,
/// with the state of the public-address vote.
pub struct RoutingTable {
    pub uid: UID,
    pub consensus_external_address: IpAddress,
    pub origin_pairs: Vec<(IpAddress, IpAddress)>,
    pub secure_only: bool,
    pub capacity: usize,
    pub buckets: Vec<KBucket>,
}

impl RoutingTable {
    pub open spec fn node_at(&self, d: int, i: int) -> Node {
        self.buckets@[d].nodes@[i]
    }

    pub open spec fn has_slot(&self, d: int, i: int) -> bool {
        0 <= d < BUCKET_COUNT && 0 <= i < self.buckets@[d].nodes@.len()
    }

    /// Some live node lies in the same network as `ip`.
    pub open spec fn prefix_taken(&self, ip: IpAddress) -> bool {
        exists|d: int, i: int|
            self.has_slot(d, i) && same_prefix((#[trigger] self.node_at(d, i)).address.ip, ip)
    }

    /// Every live node of bucket `d` lies at XOR distance `d` from the local identifier.
    pub open spec fn distances_ok(&self) -> bool {
        forall|d: int, i: int|
            self.has_slot(d, i) ==> spec_distance(self.uid@, (#[trigger] self.node_at(d, i)).uid@)
                == d
    }

    /// No two live nodes share an identifier or a network.
    pub open spec fn unique_ok(&self) -> bool {
        &&& forall|d: int, i: int, j: int|
            self.has_slot(d, i) && self.has_slot(d, j) && i != j ==> (#[trigger] self.node_at(
                d,
                i,
            )).uid@ != (#[trigger] self.node_at(d, j)).uid@
        &&& forall|d1: int, i1: int, d2: int, i2: int|
            self.has_slot(d1, i1) && self.has_slot(d2, i2) && (d1 != d2 || i1 != i2)
                ==> !same_prefix(
                (#[trigger] self.node_at(d1, i1)).address.ip,
                (#[trigger] self.node_at(d2, i2)).address.ip,
            )
    }

    pub open spec fn sizes_ok(&self) -> bool {
        &&& self.buckets@.len() == BUCKET_COUNT
        &&& self.buckets@[0].nodes@.len() == 0
        &&& self.capacity >= 1
        &&& forall|d: int|
            0 <= d < BUCKET_COUNT ==> (#[trigger] self.buckets@[d]).nodes@.len() <= self.capacity
                && self.buckets@[d].cache@.len() <= self.capacity
    }

    /// Reporters are unique in the vote and at most 64 are kept.
    pub open spec fn pairs_ok(&self) -> bool {
        &&& self.origin_pairs@.len() <= MAX_ORIGIN_PAIRS
        &&& forall|i: int, j: int|
            0 <= i < j < self.origin_pairs@.len() ==> (#[trigger] self.origin_pairs@[i]).0
                != (#[trigger] self.origin_pairs@[j]).0
    }

    /// The table's invariant.
    pub open spec fn wf(&self) -> bool {
        &&& self.sizes_ok()
        &&& self.distances_ok()
        &&& self.unique_ok()
        &&& self.pairs_ok()
    }

    /// Every live node has an identifier bound to its address.
    pub open spec fn all_secure(&self) -> bool {
        forall|d: int, i: int|
            self.has_slot(d, i) ==> spec_secure_id(
                (#[trigger] self.node_at(d, i)).uid@,
                self.node_at(d, i).address.ip,
            )
    }

    /// Some live node is a record of the same peer as `m`.
    pub open spec fn holds_peer(&self, m: Node) -> bool {
        exists|d: int, i: int| self.has_slot(d, i) && same_node(#[trigger] self.node_at(d, i), m)
    }

    /// Whether `n` passes the admission checks: bound to its address when the table
    /// is secure-only, and not the local identifier.
    pub open spec fn admits(&self, n: Node) -> bool {
        (!self.secure_only || spec_secure_id(n.uid@, n.address.ip)) && n.uid@ != self.uid@
    }

    /// The table is `t` with bucket `d` replaced by `b`.
    pub open spec fn with_bucket(&self, t: RoutingTable, d: int, nodes: Seq<Node>, cache: Seq<
        Node,
    >) -> bool {
        &&& self.uid == t.uid
        &&& self.consensus_external_address == t.consensus_external_address
        &&& self.origin_pairs@ == t.origin_pairs@
        &&& self.secure_only == t.secure_only
        &&& self.capacity == t.capacity
        &&& self.buckets@.len() == t.buckets@.len()
        &&& forall|e: int| 0 <= e < t.buckets@.len() && e != d ==> #[trigger] self.buckets@[e] == t.buckets@[e]
        &&& self.buckets@[d].nodes@ == nodes
        &&& self.buckets@[d].cache@ == cache
    }

    /// Offers `n`, seen at `now`, to the table; see `insert_effect`.
    pub fn insert(&mut self, n: Node, now: u64)
        requires
            old(self).wf(),
        ensures
            final(self).wf(),
            final(self).uid == old(self).uid,
            final(self).consensus_external_address == old(self).consensus_external_address,
            final(self).origin_pairs == old(self).origin_pairs,
            final(self).secure_only == old(self).secure_only,
            final(self).capacity == old(self).capacity,
            old(self).secure_only && old(self).all_secure() ==> final(self).all_secure(),
            forall|e: int, k: int|
                final(self).has_slot(e, k) ==> same_node(#[trigger] final(self).node_at(e, k), n)
                    || old(self).holds_peer(final(self).node_at(e, k)),
            insert_effect(*old(self), *final(self), n, now),
    {
        proof {
            lemma_holds_own_peers(*self);
        }
        if self.secure_only && !n.has_secure_id() {
            return;
        }
        if n.uid == self.uid {
            return;
        }
        let d = self.uid.distance(&n.uid);
        proof {
            lemma_distance_positive(self.uid@, n.uid@);
        }
        let found = self.buckets[d].index_of_uid(&n.uid);
        if found.is_none() && self.contains_prefix(&n.address.ip) {
            return;
        }
        let ghost t = *self;
        let ghost dd = d as int;
        proof {
            lemma_current_bucket_fits(t, dd);
        }
        let mut b = self.buckets.remove(d);
        let ghost old_nodes = b.nodes@;
        match found {
            Some(i) => {
                let mut e = b.nodes[i];
                e.seen(now);
                b.nodes.set(i, e);
                proof {
                    let nn = b.nodes@;
                    assert forall|x: int| 0 <= x < nn.len() implies (#[trigger] nn[x]).uid@
                        == old_nodes[x].uid@ && nn[x].address == old_nodes[x].address by {}
                    lemma_same_keys_fit(t, dd, old_nodes, nn, b.cache@);
                    assert forall|x: int| 0 <= x < nn.len() implies same_node(#[trigger] nn[x], n)
                        || sourced(nn[x], old_nodes) by {
                        assert(same_node(old_nodes[x], nn[x]));
                    }
                }
            },
            None => {
                if b.nodes.len() < self.capacity {
                    b.nodes.push(n);
                    proof {
                        lemma_no_prefix(t, dd, old_nodes, n);
                        lemma_push_fits(t, dd, old_nodes, b.cache@, n);
                        let nn = b.nodes@;
                        assert forall|x: int| 0 <= x < nn.len() implies same_node(#[trigger] nn[x], n)
                            || sourced(nn[x], old_nodes) by {
                            if x < old_nodes.len() {
                                assert(same_node(old_nodes[x], nn[x]));
                            }
                        }
                    }
                } else {
                    match b.first_stale() {
                        Some(j) => {
                            b.nodes.remove(j);
                            proof {
                                lemma_remove_fits(t, dd, old_nodes, b.cache@, j as int);
                            }
                            let ghost kept = b.nodes@;
                            b.nodes.push(n);
                            proof {
                                lemma_no_prefix(t, dd, old_nodes, n);
                                assert forall|x: int| 0 <= x < kept.len() implies !same_prefix(
                                    (#[trigger] kept[x]).address.ip,
                                    n.address.ip,
                                ) by {
                                    let ox = if x < j { x } else { x + 1 };
                                    assert(kept[x] == old_nodes[ox]);
                                }
                                assert(!holds_uid(kept, n.uid@)) by {
                                    if holds_uid(kept, n.uid@) {
                                        let x = choose|x: int| 0 <= x < kept.len() && (#[trigger] kept[x]).uid@ == n.uid@;
                                        let ox = if x < j { x } else { x + 1 };
                                        assert(kept[x] == old_nodes[ox]);
                                    }
                                }
                                lemma_push_fits(t, dd, kept, b.cache@, n);
                                let nn = b.nodes@;
                                assert forall|x: int| 0 <= x < nn.len() implies same_node(#[trigger] nn[x], n)
                                    || sourced(nn[x], old_nodes) by {
                                    if x < kept.len() {
                                        let y = if x < j { x } else { x + 1 };
                                        assert(kept[x] == old_nodes[y]);
                                        assert(same_node(old_nodes[y], nn[x]));
                                    }
                                }
                            }
                        },
                        None => {
                            match find_uid(&b.cache, &n.uid) {
                                Some(_) => {},
                                None => {
                                    if b.cache.len() >= self.capacity {
                                        b.cache.remove(0);
                                    }
                                    b.cache.push(n);
                                },
                            }
                            assert(b.nodes@ == old_nodes);
                            assert forall|x: int| 0 <= x < old_nodes.len() implies same_node(#[trigger] old_nodes[x], n)
                                || sourced(old_nodes[x], old_nodes) by {
                                assert(same_node(old_nodes[x], old_nodes[x]));
                            }
                        },
                    }
                }
            },
        }
        self.buckets.insert(d, b);
        proof {
            assert(self.buckets@ =~= t.buckets@.update(dd, b));
            assert(self.with_bucket(t, dd, b.nodes@, b.cache@));
            lemma_bucket_fits(t, *self, dd, b.nodes@, b.cache@);
            assert forall|e: int, k: int| self.has_slot(e, k) implies same_node(#[trigger] self.node_at(e, k), n)
                || t.holds_peer(self.node_at(e, k)) by {
                if e != dd {
                    assert(self.buckets@[e] == t.buckets@[e]);
                    assert(t.has_slot(e, k) && same_node(t.node_at(e, k), self.node_at(e, k)));
                } else if !same_node(self.node_at(e, k), n) {
                    assert(self.node_at(e, k) == b.nodes@[k]);
                    assert(same_node(b.nodes@[k], n) || sourced(b.nodes@[k], old_nodes));
                    let y = choose|y: int| 0 <= y < old_nodes.len() && same_node(#[trigger] old_nodes[y], b.nodes@[k]);
                    assert(t.has_slot(dd, y) && t.node_at(dd, y) == old_nodes[y]);
                }
            }
        }
    }

    /// Whether some live node lies in the same network as `ip`.
    pub fn contains_prefix(&self, ip: &IpAddress) -> (r: bool)
        requires
            self.buckets@.len() == BUCKET_COUNT,
        ensures
            r == self.prefix_taken(*ip),
    {
        let mut d: usize = 0;
        while d < BUCKET_COUNT
            invariant
                d <= BUCKET_COUNT,
                self.buckets@.len() == BUCKET_COUNT,
                forall|e: int, i: int|
                    0 <= e < d && self.has_slot(e, i) ==> !same_prefix(
                        (#[trigger] self.node_at(e, i)).address.ip,
                        *ip,
                    ),
            decreases BUCKET_COUNT - d,
        {
            let b = &self.buckets[d];
            let mut i: usize = 0;
            while i < b.nodes.len()
                invariant
                    i <= b.nodes@.len(),
                    d < BUCKET_COUNT,
                    self.buckets@.len() == BUCKET_COUNT,
                    *b == self.buckets@[d as int],
                    forall|e: int, k: int|
                        0 <= e < d && self.has_slot(e, k) ==> !same_prefix(
                            (#[trigger] self.node_at(e, k)).address.ip,
                            *ip,
                        ),
                    forall|k: int|
                        0 <= k < i ==> !same_prefix(
                            (#[trigger] self.node_at(d as int, k)).address.ip,
                            *ip,
                        ),
                decreases b.nodes@.len() - i,
            {
                if shares_prefix(&b.nodes[i].address.ip, ip) {
                    assert(self.has_slot(d as int, i as int));
                    assert(same_prefix(self.node_at(d as int, i as int).address.ip, *ip));
                    return true;
                }
                i = i + 1;
            }
            d = d + 1;
        }
        false
    }
}


/// The ordering key of a node in a search for `target`: the XOR of the identifiers.
pub open spec fn closeness_key(target: Seq<u8>, n: Node) -> Seq<u8> {
    xor_seq(target, n.uid@)
}

/// `c` may follow the nodes picked so far in a closest-first walk.
pub open spec fn comes_after(target: Seq<u8>, picked: Seq<Node>, c: Node) -> bool {
    picked.len() == 0 || lex_lt(closeness_key(target, picked.last()), closeness_key(target, c))
}

/// Which nodes a walk over the table keeps: all (0), the known-good ones at `now` (1)
/// or the stale ones (2).
pub open spec fn wanted(mode: u8, n: Node, now: u64) -> bool {
    mode == 0 || (mode == 1 && !n.spec_is_stale() && n.spec_is_good(now)) || (mode == 2 && n.spec_is_stale())
}

/// `r` are the up to `count` known-good nodes of `t` at `now` closest to `target`,
/// closest first: they come in strictly increasing XOR order, every known-good node left
/// out is farther than all of them, and fewer than `count` are listed only when none is
/// left out.
pub open spec fn closest_of(t: RoutingTable, target: Seq<u8>, count: int, now: u64, r: Seq<Node>) -> bool {
    &&& r.len() <= count
    &&& forall|k: int| 0 <= k < r.len() ==> t.is_good(#[trigger] r[k], now)
    &&& forall|i: int, j: int|
        0 <= i < j < r.len() ==> lex_lt(
            closeness_key(target, #[trigger] r[i]),
            closeness_key(target, #[trigger] r[j]),
        )
    &&& forall|c: Node, i: int|
        #![trigger t.is_good(c, now), r[i]]
        t.is_good(c, now) && !holds_uid(r, c.uid@) && 0 <= i < r.len() ==> lex_lt(
            closeness_key(target, r[i]),
            closeness_key(target, c),
        )
    &&& r.len() < count ==> forall|c: Node| #[trigger] t.is_good(c, now) ==> holds_uid(r, c.uid@)
}

impl RoutingTable {
    /// `n` is one of the live nodes.
    pub open spec fn is_live(&self, n: Node) -> bool {
        exists|d: int, i: int| self.has_slot(d, i) && self.node_at(d, i) == n
    }

    /// `n` is a known-good live node at `now`: not stale, and it responded within the
    /// last fifteen minutes.
    pub open spec fn is_good(&self, n: Node, now: u64) -> bool {
        self.is_live(n) && !n.spec_is_stale() && n.spec_is_good(now)
    }

    fn collect(&self, mode: u8, now: u64) -> (r: Vec<Node>)
        requires
            self.buckets@.len() == BUCKET_COUNT,
        ensures
            forall|k: int| 0 <= k < r@.len() ==> self.is_live(#[trigger] r@[k]) && wanted(mode, r@[k], now),
            forall|d: int, i: int|
                self.has_slot(d, i) && wanted(mode, self.node_at(d, i), now) ==> r@.contains(#[trigger] self.node_at(d, i)),
    {
        let mut out: Vec<Node> = Vec::new();
        let mut d: usize = 0;
        while d < BUCKET_COUNT
            invariant
                d <= BUCKET_COUNT,
                self.buckets@.len() == BUCKET_COUNT,
                forall|k: int| 0 <= k < out@.len() ==> self.is_live(#[trigger] out@[k]) && wanted(mode, out@[k], now),
                forall|e: int, i: int|
                    0 <= e < d && self.has_slot(e, i) && wanted(mode, self.node_at(e, i), now) ==> out@.contains(#[trigger] self.node_at(e, i)),
            decreases BUCKET_COUNT - d,
        {
            let b = &self.buckets[d];
            let mut i: usize = 0;
            while i < b.nodes.len()
                invariant
                    i <= b.nodes@.len(),
                    d < BUCKET_COUNT,
                    self.buckets@.len() == BUCKET_COUNT,
                    *b == self.buckets@[d as int],
                    forall|k: int| 0 <= k < out@.len() ==> self.is_live(#[trigger] out@[k]) && wanted(mode, out@[k], now),
                    forall|e: int, k: int|
                        0 <= e < d && self.has_slot(e, k) && wanted(mode, self.node_at(e, k), now) ==> out@.contains(#[trigger] self.node_at(e, k)),
                    forall|k: int|
                        0 <= k < i && wanted(mode, self.node_at(d as int, k), now) ==> out@.contains(#[trigger] self.node_at(d as int, k)),
                decreases b.nodes@.len() - i,
            {
                let n = b.nodes[i];
                assert(self.has_slot(d as int, i as int) && self.node_at(d as int, i as int) == n);
                if mode == 0 || (mode == 1 && !n.is_stale() && n.is_good(now)) || (mode == 2 && n.is_stale()) {
                    let ghost before = out@;
                    out.push(n);
                    assert forall|e: int, k: int|
                        0 <= e < d && self.has_slot(e, k) && wanted(mode, self.node_at(e, k), now) implies out@.contains(#[trigger] self.node_at(e, k)) by {
                        let w = choose|w: int| 0 <= w < before.len() && before[w] == self.node_at(e, k);
                        assert(out@[w] == before[w]);
                    }
                    assert forall|k: int|
                        0 <= k < i + 1 && wanted(mode, self.node_at(d as int, k), now) implies out@.contains(#[trigger] self.node_at(d as int, k)) by {
                        if k < i {
                            let w = choose|w: int| 0 <= w < before.len() && before[w] == self.node_at(d as int, k);
                            assert(out@[w] == before[w]);
                        } else {
                            assert(out@[before.len() as int] == n);
                        }
                    }
                }
                i = i + 1;
            }
            d = d + 1;
        }
        out
    }

    /// Every live node, bucket by bucket.
    pub fn all_nodes(&self) -> (r: Vec<Node>)
        requires
            self.wf(),
        ensures
            forall|k: int| 0 <= k < r@.len() ==> self.is_live(#[trigger] r@[k]),
            forall|d: int, i: int| self.has_slot(d, i) ==> r@.contains(#[trigger] self.node_at(d, i)),
    {
        self.collect(0, 0)
    }

    /// The nodes to send `find_node` for the local identifier after a restart: the
    /// bucket's worth of known nodes closest to it.
    pub fn bootstrap_targets(&self, now: u64) -> (r: Vec<Node>)
        requires
            self.wf(),
        ensures
            closest_of(*self, self.uid@, self.capacity as int, now, r@),
    {
        self.find_closest(&self.uid, self.capacity, now)
    }

    /// Every stale live node, bucket by bucket: those to ping again.
    pub fn stale_nodes(&self) -> (r: Vec<Node>)
        requires
            self.wf(),
        ensures
            forall|k: int| 0 <= k < r@.len() ==> self.is_live(#[trigger] r@[k]) && r@[k].spec_is_stale(),
            forall|d: int, i: int| self.has_slot(d, i) && self.node_at(d, i).spec_is_stale() ==> r@.contains(#[trigger] self.node_at(d, i)),
    {
        self.collect(2, 0)
    }

    /// Up to `count` known-good nodes at `now` closest to `target`; see `closest_of`.
    pub fn find_closest(&self, target: &UID, count: usize, now: u64) -> (r: Vec<Node>)
        requires
            self.wf(),
        ensures
            closest_of(*self, target@, count as int, now, r@),
    {
        let cands = self.collect(1, now);
        let ghost t = target@;
        let mut out: Vec<Node> = Vec::new();
        while out.len() < count
            invariant
                out@.len() <= count,
                t == target@,
                forall|k: int| 0 <= k < cands@.len() ==> self.is_good(#[trigger] cands@[k], now),
                forall|c: Node| #[trigger] self.is_good(c, now) ==> cands@.contains(c),
                forall|k: int| 0 <= k < out@.len() ==> self.is_good(#[trigger] out@[k], now),
                forall|i: int, j: int|
                    0 <= i < j < out@.len() ==> lex_lt(
                        closeness_key(t, #[trigger] out@[i]),
                        closeness_key(t, #[trigger] out@[j]),
                    ),
                forall|c: Node, i: int|
                    #![trigger self.is_good(c, now), out@[i]]
                    self.is_good(c, now) && !holds_uid(out@, c.uid@) && 0 <= i < out@.len() ==> lex_lt(
                        closeness_key(t, out@[i]),
                        closeness_key(t, c),
                    ),
            decreases count - out@.len(),
        {
            let mut best: Option<usize> = None;
            let mut j: usize = 0;
            while j < cands.len()
                invariant
                    j <= cands@.len(),
                    t == target@,
                    best is Some ==> best->0 < j && comes_after(t, out@, cands@[best->0 as int]),
                    best is Some ==> forall|k: int|
                        0 <= k < j && comes_after(t, out@, #[trigger] cands@[k]) ==> !lex_lt(
                            closeness_key(t, cands@[k]),
                            closeness_key(t, cands@[best->0 as int]),
                        ),
                    best is None ==> forall|k: int| 0 <= k < j ==> !comes_after(t, out@, #[trigger] cands@[k]),
                decreases cands@.len() - j,
            {
                let c = cands[j];
                let kc = target.xor(&c.uid);
                let eligible = if out.len() == 0 {
                    true
                } else {
                    let kl = target.xor(&out[out.len() - 1].uid);
                    lex_less(&kl.bid, &kc.bid)
                };
                if eligible {
                    match best {
                        None => {
                            best = Some(j);
                            proof {
                                lemma_lex_lt_irreflexive(closeness_key(t, c));
                            }
                        },
                        Some(b) => {
                            let kb = target.xor(&cands[b].uid);
                            if lex_less(&kc.bid, &kb.bid) {
                                proof {
                                    lemma_lex_lt_irreflexive(closeness_key(t, c));
                                    assert forall|k: int|
                                        0 <= k < j + 1 && comes_after(t, out@, #[trigger] cands@[k]) implies !lex_lt(
                                        closeness_key(t, cands@[k]),
                                        closeness_key(t, c),
                                    ) by {
                                        if k < j && lex_lt(closeness_key(t, cands@[k]), closeness_key(t, c)) {
                                            lemma_lex_lt_transitive(
                                                closeness_key(t, cands@[k]),
                                                closeness_key(t, c),
                                                closeness_key(t, cands@[b as int]),
                                            );
                                        }
                                    }
                                }
                                best = Some(j);
                            }
                        },
                    }
                }
                j = j + 1;
            }
            match best {
                None => {
                    proof {
                        assert forall|c: Node| #[trigger] self.is_good(c, now) implies holds_uid(out@, c.uid@) by {
                            assert(cands@.contains(c));
                            let k = choose|k: int| 0 <= k < cands@.len() && cands@[k] == c;
                            assert(!comes_after(t, out@, cands@[k]));
                            if !holds_uid(out@, c.uid@) {
                                assert(lex_lt(closeness_key(t, out@[out@.len() - 1]), closeness_key(t, c)));
                            }
                        }
                    }
                    return out;
                },
                Some(b) => {
                    let pick = cands[b];
                    let ghost before = out@;
                    proof {
                        let kp = closeness_key(t, pick);
                        assert(self.is_good(pick, now));
                        assert(!holds_uid(before, pick.uid@)) by {
                            if holds_uid(before, pick.uid@) {
                                let w = choose|w: int| 0 <= w < before.len() && (#[trigger] before[w]).uid@ == pick.uid@;
                                assert(closeness_key(t, before[w]) == kp);
                                if w < before.len() - 1 {
                                    lemma_lex_lt_transitive(kp, closeness_key(t, before.last()), kp);
                                }
                                lemma_lex_lt_irreflexive(kp);
                            }
                        }
                        assert forall|c: Node|
                            self.is_good(c, now) && !holds_uid(before, c.uid@) && c.uid@ != pick.uid@ implies lex_lt(kp, closeness_key(t, c)) by {
                            assert(cands@.contains(c));
                            let k = choose|k: int| 0 <= k < cands@.len() && cands@[k] == c;
                            if before.len() > 0 {
                                assert(comes_after(t, before, cands@[k]));
                            }
                            assert(!lex_lt(closeness_key(t, c), kp));
                            lemma_lex_lt_total(kp, closeness_key(t, c));
                            if kp == closeness_key(t, c) {
                                lemma_xor_injective(t, pick.uid@, c.uid@);
                            }
                        }
                    }
                    out.push(pick);
                    proof {
                        let kp = closeness_key(t, pick);
                        assert(out@ == before.push(pick));
                        assert forall|c: Node, i: int|
                            #![trigger self.is_good(c, now), out@[i]]
                            self.is_good(c, now) && !holds_uid(out@, c.uid@) && 0 <= i < out@.len() implies lex_lt(
                            closeness_key(t, out@[i]),
                            closeness_key(t, c),
                        ) by {
                            assert(!holds_uid(before, c.uid@)) by {
                                if holds_uid(before, c.uid@) {
                                    let w = choose|w: int| 0 <= w < before.len() && (#[trigger] before[w]).uid@ == c.uid@;
                                    assert(out@[w] == before[w]);
                                }
                            }
                            assert(c.uid@ != pick.uid@) by {
                                assert(out@[before.len() as int] == pick);
                            }
                            if i < before.len() {
                                assert(out@[i] == before[i]);
                            }
                        }
                        assert forall|i: int, j: int|
                            0 <= i < j < out@.len() implies lex_lt(
                            closeness_key(t, #[trigger] out@[i]),
                            closeness_key(t, #[trigger] out@[j]),
                        ) by {
                            assert(out@[i] == before[i]);
                            if j < before.len() {
                                assert(out@[j] == before[j]);
                            }
                        }
                    }
                },
            }
        }
        out
    }
}


/// The vote's pairs after `source` reported `addr`: a known reporter keeps its place
/// with the new address; a new one goes to the back, the oldest making room when 64
/// are kept.
pub open spec fn pairs_after(pairs: Seq<(IpAddress, IpAddress)>, source: IpAddress, addr: IpAddress) -> Seq<(IpAddress, IpAddress)> {
    if exists|i: int| 0 <= i < pairs.len() && (#[trigger] pairs[i]).0 == source {
        let i = choose|i: int| 0 <= i < pairs.len() && (#[trigger] pairs[i]).0 == source;
        pairs.update(i, (source, addr))
    } else if pairs.len() >= MAX_ORIGIN_PAIRS {
        pairs.drop_first().push((source, addr))
    } else {
        pairs.push((source, addr))
    }
}

/// The observed addresses of the vote, oldest first.
pub open spec fn observed_values(pairs: Seq<(IpAddress, IpAddress)>) -> Seq<IpAddress> {
    pairs.map_values(|p: (IpAddress, IpAddress)| p.1)
}

/// 161 empty buckets.
fn empty_buckets() -> (r: Vec<KBucket>)
    ensures
        r@.len() == BUCKET_COUNT,
        forall|d: int| 0 <= d < BUCKET_COUNT ==> (#[trigger] r@[d]).nodes@.len() == 0 && r@[d].cache@.len() == 0,
{
    let mut out: Vec<KBucket> = Vec::new();
    let mut d: usize = 0;
    while d < BUCKET_COUNT
        invariant
            d <= BUCKET_COUNT,
            out@.len() == d,
            forall|e: int| 0 <= e < d ==> (#[trigger] out@[e]).nodes@.len() == 0 && out@[e].cache@.len() == 0,
        decreases BUCKET_COUNT - d,
    {
        out.push(KBucket::new());
        d = d + 1;
    }
    out
}

impl RoutingTable {
    /// An empty table with buckets of `capacity` nodes, whose identifier is derived
    /// from 20 random bytes for the default external address 127.0.1.1.
    pub fn new(capacity: usize, secure_only: bool, random: &[u8; 20]) -> (r: RoutingTable)
        requires
            capacity >= 1,
        ensures
            r.wf(),
            r.all_secure(),
            r.capacity == capacity,
            r.secure_only == secure_only,
            r.consensus_external_address == IpAddress::V4([127u8, 0u8, 1u8, 1u8]),
            r.origin_pairs@.len() == 0,
            is_derived_uid(r.consensus_external_address, random@, r.uid@),
            forall|d: int, i: int| !r.has_slot(d, i),
    {
        let consensus = IpAddress::V4([127, 0, 1, 1]);
        let uid = derive_secure_uid(&consensus, random);
        RoutingTable {
            uid,
            consensus_external_address: consensus,
            origin_pairs: Vec::new(),
            secure_only,
            capacity,
            buckets: empty_buckets(),
        }
    }

    /// Number of live nodes at distance `d`.
    pub fn bucket_size(&self, d: usize) -> (r: usize)
        requires
            self.wf(),
            d < BUCKET_COUNT,
        ensures
            r == self.buckets@[d as int].nodes@.len(),
    {
        self.buckets[d].nodes.len()
    }

    /// Bucket index of identifier `k`: its XOR distance to the local identifier.
    pub fn bucket_uid(&self, k: &UID) -> (r: usize)
        ensures
            r == spec_distance(self.uid@, k@),
            r < BUCKET_COUNT,
    {
        self.uid.distance(k)
    }

    /// Whether the live node with the identifier of `n` was contacted less than five
    /// seconds before `now`.
    pub fn has_queried(&self, n: &Node, now: u64) -> (r: bool)
        requires
            self.wf(),
        ensures
            r == exists|d: int, i: int|
                self.has_slot(d, i) && (#[trigger] self.node_at(d, i)).uid@ == n.uid@ && self.node_at(d, i).spec_has_queried(now),
    {
        let d = self.uid.distance(&n.uid);
        match self.buckets[d].index_of_uid(&n.uid) {
            Some(i) => {
                let q = self.buckets[d].nodes[i].has_queried(now);
                proof {
                    assert(self.has_slot(d as int, i as int));
                    assert(self.node_at(d as int, i as int) == self.buckets@[d as int].nodes@[i as int]);
                    assert forall|e: int, k: int| self.has_slot(e, k) && (#[trigger] self.node_at(e, k)).uid@ == n.uid@ implies e == d && k == i by {
                        assert(e == d);
                    }
                }
                q
            },
            None => {
                assert forall|e: int, i: int| self.has_slot(e, i) && (#[trigger] self.node_at(e, i)).uid@ == n.uid@ implies false by {
                    assert(e == d);
                    assert(self.buckets@[d as int].nodes@[i] == self.node_at(e, i));
                }
                false
            },
        }
    }

    /// Whether the table only takes nodes whose identifiers are bound to their addresses.
    pub fn is_secure_only(&self) -> (r: bool)
        ensures
            r == self.secure_only,
    {
        self.secure_only
    }

    /// The local identifier.
    pub fn get_derived_uid(&self) -> (r: UID)
        ensures
            r == self.uid,
    {
        self.uid
    }

    /// The external address agreed on by the vote.
    pub fn get_consensus_external_address(&self) -> (r: IpAddress)
        ensures
            r == self.consensus_external_address,
    {
        self.consensus_external_address
    }

    /// Replaces the live node at (`d`, `i`) by a record of the same peer.
    fn replace_node(&mut self, d: usize, i: usize, n: Node)
        requires
            old(self).wf(),
            old(self).has_slot(d as int, i as int),
            n.uid@ == old(self).node_at(d as int, i as int).uid@,
            n.address == old(self).node_at(d as int, i as int).address,
        ensures
            final(self).wf(),
            final(self).with_bucket(
                *old(self),
                d as int,
                old(self).buckets@[d as int].nodes@.update(i as int, n),
                old(self).buckets@[d as int].cache@,
            ),
            old(self).all_secure() ==> final(self).all_secure(),
    {
        let ghost t = *self;
        let ghost dd = d as int;
        proof {
            assert(t.has_slot(dd, i as int));
            assert(spec_distance(t.uid@, t.node_at(dd, i as int).uid@) == dd);
            lemma_current_bucket_fits(t, dd);
        }
        let mut b = self.buckets.remove(d);
        let ghost old_nodes = b.nodes@;
        b.nodes.set(i, n);
        proof {
            let nn = b.nodes@;
            assert forall|x: int| 0 <= x < nn.len() implies (#[trigger] nn[x]).uid@
                == old_nodes[x].uid@ && nn[x].address == old_nodes[x].address by {}
            lemma_same_keys_fit(t, dd, old_nodes, nn, b.cache@);
        }
        self.buckets.insert(d, b);
        proof {
            assert(self.buckets@ =~= t.buckets@.update(dd, b));
            assert(self.with_bucket(t, dd, b.nodes@, b.cache@));
            lemma_bucket_fits(t, *self, dd, b.nodes@, b.cache@);
            if t.all_secure() {
                assert forall|e: int, k: int| self.has_slot(e, k) implies spec_secure_id(
                    (#[trigger] self.node_at(e, k)).uid@,
                    self.node_at(e, k).address.ip,
                ) by {
                    if e != dd || k != i {
                        assert(self.node_at(e, k) == t.node_at(e, k));
                    } else {
                        assert(t.has_slot(dd, i as int));
                    }
                }
            }
        }
    }

    /// Records a missed reply from the live node with identifier `u`, if there is one.
    pub fn mark_stale(&mut self, u: &UID)
        requires
            old(self).wf(),
        ensures
            final(self).wf(),
            old(self).all_secure() ==> final(self).all_secure(),
            stale_marked(*old(self), *final(self), u@),
    {
        let d = self.uid.distance(u);
        match self.buckets[d].index_of_uid(u) {
            Some(i) => {
                let mut m = self.buckets[d].nodes[i];
                m.mark_stale();
                proof {
                    assert(self.has_slot(d as int, i as int));
                    let nodes = self.buckets@[d as int].nodes@;
                    assert(self.node_at(d as int, i as int) == nodes[i as int]);
                    assert forall|k: int| 0 <= k < nodes.len() && nodes[k].uid@ == u@ implies k == i by {
                        assert(self.has_slot(d as int, k));
                        assert(self.node_at(d as int, k) == nodes[k]);
                    }
                }
                self.replace_node(d, i, m);
            },
            None => {},
        }
    }

    /// Records that the live node with identifier `u` was heard from at `now`, if
    /// there is one.
    pub fn seen(&mut self, u: &UID, now: u64)
        requires
            old(self).wf(),
        ensures
            final(self).wf(),
            old(self).all_secure() ==> final(self).all_secure(),
            seen_marked(*old(self), *final(self), u@, now),
    {
        let d = self.uid.distance(u);
        match self.buckets[d].index_of_uid(u) {
            Some(i) => {
                let mut m = self.buckets[d].nodes[i];
                m.seen(now);
                proof {
                    assert(self.has_slot(d as int, i as int));
                    let nodes = self.buckets@[d as int].nodes@;
                    assert(self.node_at(d as int, i as int) == nodes[i as int]);
                    assert forall|k: int| 0 <= k < nodes.len() && nodes[k].uid@ == u@ implies k == i by {
                        assert(self.has_slot(d as int, k));
                        assert(self.node_at(d as int, k) == nodes[k]);
                    }
                }
                self.replace_node(d, i, m);
            },
            None => {},
        }
    }

    /// Records that the live node with identifier `u`, if there is one, answered a
    /// request at `now`.
    pub fn responded(&mut self, u: &UID, now: u64)
        requires
            old(self).wf(),
        ensures
            final(self).wf(),
            old(self).all_secure() ==> final(self).all_secure(),
            responded_marked(*old(self), *final(self), u@, now),
    {
        let d = self.uid.distance(u);
        match self.buckets[d].index_of_uid(u) {
            Some(i) => {
                let mut m = self.buckets[d].nodes[i];
                m.responded(now);
                proof {
                    assert(self.has_slot(d as int, i as int));
                    let nodes = self.buckets@[d as int].nodes@;
                    assert(self.node_at(d as int, i as int) == nodes[i as int]);
                    assert forall|k: int| 0 <= k < nodes.len() && nodes[k].uid@ == u@ implies k == i by {
                        assert(self.has_slot(d as int, k));
                        assert(self.node_at(d as int, k) == nodes[k]);
                    }
                }
                self.replace_node(d, i, m);
            },
            None => {},
        }
    }
}

impl RoutingTable {
    fn put_origin_pair(&mut self, source: IpAddress, addr: IpAddress)
        requires
            old(self).wf(),
        ensures
            *final(self) == (RoutingTable { origin_pairs: final(self).origin_pairs, ..*old(self) }),
            final(self).origin_pairs@ == pairs_after(old(self).origin_pairs@, source, addr),
            final(self).wf(),
    {
        let ghost p = self.origin_pairs@;
        let mut i: usize = 0;
        while i < self.origin_pairs.len()
            invariant
                i <= self.origin_pairs@.len(),
                self.origin_pairs@ == p,
                *self == *old(self),
                self.wf(),
                forall|k: int| 0 <= k < i ==> (#[trigger] p[k]).0 != source,
            decreases self.origin_pairs@.len() - i,
        {
            if self.origin_pairs[i].0 == source {
                proof {
                    assert forall|k: int| 0 <= k < p.len() && (#[trigger] p[k]).0 == source implies k == i by {
                        if k < i {
                            assert(p[k].0 != p[i as int].0);
                        } else if k > i {
                            assert(p[i as int].0 != p[k].0);
                        }
                    }
                }
                self.origin_pairs.set(i, (source, addr));
                proof {
                    let np = self.origin_pairs@;
                    assert(p[i as int].0 == source);
                    let c = choose|k: int| 0 <= k < p.len() && (#[trigger] p[k]).0 == source;
                    assert(c == i);
                    assert(np == p.update(i as int, (source, addr)));
                    assert forall|a: int, b: int| 0 <= a < b < np.len() implies (#[trigger] np[a]).0 != (#[trigger] np[b]).0 by {
                        assert(np[a].0 == p[a].0 && np[b].0 == p[b].0);
                    }
                    lemma_nodes_unchanged(*old(self), *self);
                }
                return;
            }
            i = i + 1;
        }
        if self.origin_pairs.len() >= MAX_ORIGIN_PAIRS {
            self.origin_pairs.remove(0);
            assert(self.origin_pairs@ =~= p.drop_first());
        }
        let ghost kept = self.origin_pairs@;
        self.origin_pairs.push((source, addr));
        proof {
            let np = self.origin_pairs@;
            assert(!exists|k: int| 0 <= k < p.len() && (#[trigger] p[k]).0 == source);
            if p.len() >= MAX_ORIGIN_PAIRS {
                assert(np =~= p.drop_first().push((source, addr)));
            } else {
                assert(np =~= p.push((source, addr)));
            }
            assert forall|a: int, b: int| 0 <= a < b < np.len() implies (#[trigger] np[a]).0 != (#[trigger] np[b]).0 by {
                if b == np.len() - 1 {
                    if kept.len() < p.len() {
                        assert(np[a] == p[a + 1]);
                    } else {
                        assert(np[a] == p[a]);
                    }
                } else if kept.len() < p.len() {
                    assert(np[a] == p[a + 1] && np[b] == p[b + 1]);
                }
            }
            lemma_nodes_unchanged(*old(self), *self);
        }
    }

    fn observed(&self) -> (r: Vec<IpAddress>)
        ensures
            r@ == observed_values(self.origin_pairs@),
    {
        let mut out: Vec<IpAddress> = Vec::new();
        let mut i: usize = 0;
        while i < self.origin_pairs.len()
            invariant
                i <= self.origin_pairs@.len(),
                out@ =~= observed_values(self.origin_pairs@).take(i as int),
            decreases self.origin_pairs@.len() - i,
        {
            out.push(self.origin_pairs[i].1);
            i = i + 1;
        }
        assert(observed_values(self.origin_pairs@).take(i as int) =~= observed_values(self.origin_pairs@));
        out
    }

    /// Derives a new local identifier from the external address and 20 random bytes,
    /// and files every live node again by its distance to it.
    pub fn restart(&mut self, random: &[u8; 20])
        requires
            old(self).wf(),
        ensures
            final(self).wf(),
            is_derived_uid(old(self).consensus_external_address, random@, final(self).uid@),
            final(self).consensus_external_address == old(self).consensus_external_address,
            final(self).origin_pairs@ == old(self).origin_pairs@,
            final(self).secure_only == old(self).secure_only,
            final(self).capacity == old(self).capacity,
            final(self).secure_only ==> final(self).all_secure(),
            forall|e: int, k: int| final(self).has_slot(e, k) ==> old(self).holds_peer(#[trigger] final(self).node_at(e, k)),
            refiled(*old(self), *final(self)),
    {
        let nodes = self.all_nodes();
        let ghost t = *self;
        self.uid = derive_secure_uid(&self.consensus_external_address, random);
        self.buckets = empty_buckets();
        let ghost mut steps: Seq<RoutingTable> = seq![*self];
        assert forall|e: int, k: int| self.has_slot(e, k) implies t.holds_peer(#[trigger] self.node_at(e, k)) by {}
        let mut i: usize = 0;
        while i < nodes.len()
            invariant
                i <= nodes@.len(),
                self.wf(),
                self.secure_only == t.secure_only,
                self.capacity == t.capacity,
                self.consensus_external_address == t.consensus_external_address,
                self.origin_pairs@ == t.origin_pairs@,
                is_derived_uid(t.consensus_external_address, random@, self.uid@),
                self.secure_only ==> self.all_secure(),
                forall|k: int| 0 <= k < nodes@.len() ==> t.is_live(#[trigger] nodes@[k]),
                forall|e: int, k: int| self.has_slot(e, k) ==> t.holds_peer(#[trigger] self.node_at(e, k)),
                steps.len() == i + 1,
                steps[i as int] == *self,
                steps[0].uid == self.uid,
                steps[0].consensus_external_address == self.consensus_external_address,
                steps[0].origin_pairs@ == self.origin_pairs@,
                steps[0].secure_only == self.secure_only,
                steps[0].capacity == self.capacity,
                steps[0].buckets@.len() == BUCKET_COUNT,
                forall|d: int| 0 <= d < BUCKET_COUNT ==> (#[trigger] steps[0].buckets@[d]).nodes@.len() == 0
                    && steps[0].buckets@[d].cache@.len() == 0,
                forall|k: int| 0 <= k < i ==> insert_effect(steps[k], steps[k + 1], #[trigger] nodes@[k], nodes@[k].last_seen),
            decreases nodes@.len() - i,
        {
            let n = nodes[i];
            let ghost before = *self;
            self.insert(n, n.last_seen);
            proof {
                let prev = steps;
                steps = steps.push(*self);
                assert forall|k: int| 0 <= k < i + 1 implies insert_effect(steps[k], steps[k + 1], #[trigger] nodes@[k], nodes@[k].last_seen) by {
                    assert(steps[k] == prev[k]);
                    if k < i {
                        assert(steps[k + 1] == prev[k + 1]);
                    }
                }
                assert(t.is_live(n));
                assert forall|e: int, k: int| self.has_slot(e, k) implies t.holds_peer(#[trigger] self.node_at(e, k)) by {
                    let m = self.node_at(e, k);
                    if same_node(m, n) {
                        let (d, j) = choose|d: int, j: int| t.has_slot(d, j) && t.node_at(d, j) == n;
                        assert(same_node(t.node_at(d, j), m));
                    } else {
                        let (d, j) = choose|d: int, j: int| before.has_slot(d, j) && same_node(#[trigger] before.node_at(d, j), m);
                        assert(t.holds_peer(before.node_at(d, j)));
                        let (d2, j2) = choose|d2: int, j2: int| t.has_slot(d2, j2) && same_node(#[trigger] t.node_at(d2, j2), before.node_at(d, j));
                        assert(same_node(t.node_at(d2, j2), m));
                    }
                }
            }
            i = i + 1;
        }
        proof {
            assert(lists_live(t, nodes@));
            assert(refiled_from(nodes@, steps, *self));
        }
    }
}

impl RoutingTable {
    /// Folds in that `source` saw this node at external address `addr`.
    ///
    /// Addresses that are not global unicast are ignored. Otherwise the pair is
    /// recorded; once more than 20 pairs are kept and `addr` differs from the current
    /// consensus, a majority vote over the observed addresses runs, and when its
    /// winner differs from the consensus it becomes the consensus and the table
    /// restarts with an identifier derived from it and `random`. Returns whether it
    /// restarted.
    pub fn update_public_ip_consensus(&mut self, source: IpAddress, addr: IpAddress, random: &[u8; 20]) -> (restarted: bool)
        requires
            old(self).wf(),
        ensures
            final(self).wf(),
            final(self).secure_only == old(self).secure_only,
            final(self).capacity == old(self).capacity,
            !spec_global_unicast(addr) ==> *final(self) == *old(self),
            spec_global_unicast(addr) ==> final(self).origin_pairs@ == pairs_after(
                old(self).origin_pairs@,
                source,
                addr,
            ),
            !restarted ==> final(self).consensus_external_address == old(self).consensus_external_address
                && final(self).uid == old(self).uid && final(self).buckets == old(self).buckets,
            restarted ==> {
                &&& spec_global_unicast(addr)
                &&& final(self).origin_pairs@.len() > CONSENSUS_THRESHOLD
                &&& addr != old(self).consensus_external_address
                &&& final(self).consensus_external_address != old(self).consensus_external_address
                &&& observed_values(final(self).origin_pairs@).contains(final(self).consensus_external_address)
                &&& is_derived_uid(final(self).consensus_external_address, random@, final(self).uid@)
                &&& refiled(*old(self), *final(self))
            },
            forall|x: IpAddress|
                spec_global_unicast(addr) && final(self).origin_pairs@.len() > CONSENSUS_THRESHOLD
                    && addr != old(self).consensus_external_address
                    && #[trigger] is_strict_majority(observed_values(final(self).origin_pairs@), x)
                    ==> final(self).consensus_external_address == x,
            final(self).secure_only && old(self).all_secure() ==> final(self).all_secure(),
    {
        if !is_global_unicast(&addr) {
            return false;
        }
        self.put_origin_pair(source, addr);
        if self.origin_pairs.len() > CONSENSUS_THRESHOLD && addr != self.consensus_external_address {
            let values = self.observed();
            let winner = majority_vote(&values);
            if winner != self.consensus_external_address {
                self.consensus_external_address = winner;
                let ghost before = *self;
                proof {
                    lemma_nodes_unchanged(*old(self), before);
                }
                self.restart(random);
                proof {
                    lemma_refiled_same_buckets(before, *old(self), *self);
                }
                return true;
            }
        }
        proof {
            lemma_nodes_unchanged(*old(self), *self);
        }
        false
    }

    /// Makes the table take only nodes whose identifiers are bound to their addresses,
    /// or any node.
    pub fn set_secure_only(&mut self, secure_only: bool)
        requires
            old(self).wf(),
        ensures
            final(self).wf(),
            *final(self) == (RoutingTable { secure_only, ..*old(self) }),
    {
        self.secure_only = secure_only;
        proof {
            lemma_nodes_unchanged(*old(self), *self);
        }
    }
}

/// No two live nodes of a well-formed table share an identifier, nor a /24 (IPv4) or
/// /64 (IPv6) network.
pub proof fn lemma_live_nodes_distinct(t: RoutingTable, d1: int, i1: int, d2: int, i2: int)
    requires
        t.wf(),
        t.has_slot(d1, i1),
        t.has_slot(d2, i2),
        d1 != d2 || i1 != i2,
    ensures
        t.node_at(d1, i1).uid@ != t.node_at(d2, i2).uid@,
        !same_prefix(t.node_at(d1, i1).address.ip, t.node_at(d2, i2).address.ip),
{
    assert(spec_distance(t.uid@, t.node_at(d1, i1).uid@) == d1);
    assert(spec_distance(t.uid@, t.node_at(d2, i2).uid@) == d2);
}

} // verus!
