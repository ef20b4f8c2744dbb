use vstd::prelude::*;
use crate::order::{lex_lt, lex_less, lemma_lex_lt_transitive, lemma_lex_lt_irreflexive};
use crate::node::{Node, same_node, spec_secure_id};
use crate::routing::{RoutingTable, holds_uid, closest_of, closeness_key, insert_effect, stale_marked, seen_marked, responded_marked};
use crate::uid::{UID, spec_distance, is_id_at_distance, ID_BITS};

verus! {

/// A node a lookup still has to ask: not the local identifier, not asked before in this
/// lookup, and not contacted in the last five seconds according to `table`.
pub open spec fn worth_asking(table: RoutingTable, queries: Seq<Node>, n: Node, now: u64) -> bool {
    &&& n.uid@ != table.uid@
    &&& !(exists|k: int| 0 <= k < queries.len() && same_node(#[trigger] queries[k], n))
    &&& !(exists|d: int, i: int|
        table.has_slot(d, i) && (#[trigger] table.node_at(d, i)).uid@ == n.uid@ && table.node_at(d, i).spec_has_queried(now))
}

/// The nodes of `ns` worth asking, in order.
pub open spec fn to_ask(table: RoutingTable, queries: Seq<Node>, ns: Seq<Node>, now: u64) -> Seq<Node>
    decreases ns.len(),
{
    if ns.len() == 0 {
        Seq::empty()
    } else {
        to_ask(table, queries, ns.drop_last(), now) + if worth_asking(table, queries, ns.last(), now) {
            seq![ns.last()]
        } else {
            Seq::empty()
        }
    }
}

fn known_query(queries: &Vec<Node>, n: &Node) -> (r: bool)
    ensures
        r == exists|k: int| 0 <= k < queries@.len() && same_node(#[trigger] queries@[k], *n),
{
    let mut i: usize = 0;
    while i < queries.len()
        invariant
            i <= queries@.len(),
            forall|k: int| 0 <= k < i ==> !same_node(#[trigger] queries@[k], *n),
        decreases queries@.len() - i,
    {
        if queries[i] == *n {
            return true;
        }
        i = i + 1;
    }
    false
}

/// The nodes of `ns` worth asking, in order.
fn select_to_ask(table: &RoutingTable, queries: &Vec<Node>, ns: &Vec<Node>, now: u64) -> (r: Vec<Node>)
    requires
        table.wf(),
    ensures
        r@ == to_ask(*table, queries@, ns@, now),
{
    let mut out: Vec<Node> = Vec::new();
    let mut i: usize = 0;
    while i < ns.len()
        invariant
            i <= ns@.len(),
            table.wf(),
            out@ == to_ask(*table, queries@, ns@.take(i as int), now),
        decreases ns@.len() - i,
    {
        assert(ns@.take(i + 1).drop_last() =~= ns@.take(i as int));
        let n = ns[i];
        if !(n.uid == table.uid) && !known_query(queries, &n) && !table.has_queried(&n, now) {
            out.push(n);
        }
        i = i + 1;
    }
    assert(ns@.take(ns@.len() as int) =~= ns@);
    out
}

/// Appends `more` to `v`.
fn append_all(v: &mut Vec<Node>, more: &Vec<Node>)
    ensures
        final(v)@ == old(v)@ + more@,
{
    let mut i: usize = 0;
    while i < more.len()
        invariant
            i <= more@.len(),
            v@ == old(v)@ + more@.take(i as int),
        decreases more@.len() - i,
    {
        v.push(more[i]);
        assert(old(v)@ + more@.take(i + 1) =~= (old(v)@ + more@.take(i as int)).push(more@[i as int]));
        i = i + 1;
    }
    assert(more@.take(more@.len() as int) =~= more@);
}

/// Answers to pings: a reply brings the node into the table, a stall marks it stale.
pub struct PingResponseListener {}

impl PingResponseListener {
    pub fn new() -> (r: PingResponseListener) {
        PingResponseListener {}
    }

    /// The pinged node answered at `now`: it is offered to the table, and recorded as
    /// having answered.
    pub fn on_response(&self, table: &mut RoutingTable, node: Node, now: u64)
        requires
            old(table).wf(),
        ensures
            final(table).wf(),
            old(table).secure_only && old(table).all_secure() ==> final(table).all_secure(),
            exists|mid: RoutingTable|
                #[trigger] insert_effect(*old(table), mid, node, now) && responded_marked(mid, *final(table), node.uid@, now),
    {
        table.insert(node, now);
        let ghost mid = *table;
        table.responded(&node.uid, now);
        assert(insert_effect(*old(table), mid, node, now) && responded_marked(mid, *table, node.uid@, now));
    }

    /// The ping stalled: the node, if the call named one, missed a reply.
    pub fn on_stalled(&self, table: &mut RoutingTable, node: Option<Node>)
        requires
            old(table).wf(),
        ensures
            final(table).wf(),
            old(table).all_secure() ==> final(table).all_secure(),
            node is None ==> *final(table) == *old(table),
            node matches Some(n) ==> stale_marked(*old(table), *final(table), n.uid@),
    {
        match node {
            Some(n) => table.mark_stale(&n.uid),
            None => {},
        }
    }
}

/// What a join step asks for: `find_node` to some nodes, `ping` to others.
pub struct JoinStep {
    pub find_node: Vec<Node>,
    pub ping: Vec<Node>,
    /// Whether the refresh handler is to be started if it is not running.
    pub start_refresh: bool,
}

/// The state of one bootstrap lookup: the nodes asked so far, and whether it has
/// converged.
pub struct JoinNodeResponseListener {
    pub queries: Vec<Node>,
    pub stop: bool,
}

impl JoinNodeResponseListener {
    /// A lookup that has asked nobody.
    pub fn new() -> (r: JoinNodeResponseListener)
        ensures
            r.queries@.len() == 0,
            !r.stop,
    {
        JoinNodeResponseListener { queries: Vec::new(), stop: false }
    }

    /// `responder` answered a `find_node` for the local identifier with `nodes` at
    /// `now`. The responder is offered to the table and recorded as having answered.
    /// The nodes worth asking are sorted by XOR distance to the local identifier and
    /// remembered in that order; when the closest of them is strictly closer than the
    /// responder and the lookup has not converged, each gets a `find_node` and the
    /// refresh handler is to start; otherwise the lookup converges and each gets a
    /// `ping`.
    pub fn on_response(&mut self, table: &mut RoutingTable, responder: Node, nodes: &Vec<Node>, now: u64) -> (r: JoinStep)
        requires
            old(table).wf(),
        ensures
            final(table).wf(),
            final(table).uid == old(table).uid,
            old(table).secure_only && old(table).all_secure() ==> final(table).all_secure(),
            exists|mid: RoutingTable|
                #[trigger] insert_effect(*old(table), mid, responder, now) && responded_marked(mid, *final(table), responder.uid@, now),
            nodes@.len() == 0 ==> r.find_node@.len() == 0 && r.ping@.len() == 0 && r.start_refresh
                && final(self).queries@ == old(self).queries@ && final(self).stop == old(self).stop,
            nodes@.len() > 0 ==> {
                let sorted = sorted_by_closeness(final(table).uid@, to_ask(*final(table), old(self).queries@, nodes@, now));
                let d = spec_distance(final(table).uid@, responder.uid@);
                let converge = old(self).stop || sorted.len() == 0 || d <= spec_distance(final(table).uid@, sorted[0].uid@);
                &&& final(self).queries@ == old(self).queries@ + sorted
                &&& converge ==> final(self).stop && r.ping@ == sorted && r.find_node@.len() == 0 && !r.start_refresh
                &&& !converge ==> !final(self).stop && r.find_node@ == sorted && r.ping@.len() == 0 && r.start_refresh
            },
    {
        table.insert(responder, now);
        let ghost mid = *table;
        table.responded(&responder.uid, now);
        assert(insert_effect(*old(table), mid, responder, now) && responded_marked(mid, *table, responder.uid@, now));
        if nodes.len() == 0 {
            return JoinStep { find_node: Vec::new(), ping: Vec::new(), start_refresh: true };
        }
        let uid = table.get_derived_uid();
        let distance = uid.distance(&responder.uid);
        let kept = select_to_ask(table, &self.queries, nodes, now);
        let sorted = sort_by_closeness(&uid, &kept);
        append_all(&mut self.queries, &sorted);
        if self.stop || sorted.len() == 0 || distance <= uid.distance(&sorted[0].uid) {
            self.stop = true;
            return JoinStep { find_node: Vec::new(), ping: sorted, start_refresh: false };
        }
        JoinStep { find_node: sorted, ping: Vec::new(), start_refresh: true }
    }
}

/// `s` with `x` put before the first node farther than it from `target` in XOR order.
pub open spec fn sorted_insert(target: Seq<u8>, s: Seq<Node>, x: Node) -> Seq<Node>
    decreases s.len(),
{
    if s.len() == 0 {
        seq![x]
    } else if lex_lt(closeness_key(target, x), closeness_key(target, s[0])) {
        seq![x] + s
    } else {
        seq![s[0]] + sorted_insert(target, s.drop_first(), x)
    }
}

/// `s` sorted by XOR distance to `target`, closest first; nodes at equal distance keep
/// their order.
pub open spec fn sorted_by_closeness(target: Seq<u8>, s: Seq<Node>) -> Seq<Node>
    decreases s.len(),
{
    if s.len() == 0 {
        Seq::empty()
    } else {
        sorted_insert(target, sorted_by_closeness(target, s.drop_last()), s.last())
    }
}

proof fn lemma_sorted_insert_at(target: Seq<u8>, s: Seq<Node>, x: Node, p: int)
    requires
        0 <= p <= s.len(),
        forall|j: int| 0 <= j < p ==> !lex_lt(closeness_key(target, x), closeness_key(target, #[trigger] s[j])),
        p < s.len() ==> lex_lt(closeness_key(target, x), closeness_key(target, s[p])),
    ensures
        sorted_insert(target, s, x) == s.insert(p, x),
    decreases s.len(),
{
    if s.len() == 0 {
        assert(s.insert(p, x) =~= seq![x]);
    } else if p == 0 {
        assert(s.insert(p, x) =~= seq![x] + s);
    } else {
        let t = s.drop_first();
        assert forall|j: int| 0 <= j < p - 1 implies !lex_lt(closeness_key(target, x), closeness_key(target, #[trigger] t[j])) by {
            assert(t[j] == s[j + 1]);
        }
        if p < s.len() {
            assert(t[p - 1] == s[p]);
        }
        lemma_sorted_insert_at(target, t, x, p - 1);
        assert(seq![s[0]] + t.insert(p - 1, x) =~= s.insert(p, x));
    }
}

/// No node of `s` is strictly closer to `target` than one before it.
pub open spec fn closeness_ordered(target: Seq<u8>, s: Seq<Node>) -> bool {
    forall|i: int, j: int|
        0 <= i < j < s.len() ==> !lex_lt(closeness_key(target, #[trigger] s[j]), closeness_key(target, #[trigger] s[i]))
}

proof fn lemma_sorted_insert_members(target: Seq<u8>, s: Seq<Node>, x: Node)
    ensures
        sorted_insert(target, s, x).len() == s.len() + 1,
        forall|k: int| 0 <= k < sorted_insert(target, s, x).len() ==> #[trigger] sorted_insert(target, s, x)[k] == x
            || s.contains(sorted_insert(target, s, x)[k]),
    decreases s.len(),
{
    let r = sorted_insert(target, s, x);
    if s.len() == 0 {
    } else if lex_lt(closeness_key(target, x), closeness_key(target, s[0])) {
        assert forall|k: int| 0 <= k < r.len() implies #[trigger] r[k] == x || s.contains(r[k]) by {
            if k > 0 {
                assert(r[k] == s[k - 1]);
            }
        }
    } else {
        let t = s.drop_first();
        lemma_sorted_insert_members(target, t, x);
        let rt = sorted_insert(target, t, x);
        assert forall|k: int| 0 <= k < r.len() implies #[trigger] r[k] == x || s.contains(r[k]) by {
            if k == 0 {
                assert(r[0] == s[0]);
            } else {
                assert(r[k] == rt[k - 1]);
                if rt[k - 1] != x {
                    let w = choose|w: int| 0 <= w < t.len() && t[w] == rt[k - 1];
                    assert(s[w + 1] == t[w]);
                }
            }
        }
    }
}

proof fn lemma_sorted_insert_ordered(target: Seq<u8>, s: Seq<Node>, x: Node)
    requires
        closeness_ordered(target, s),
    ensures
        closeness_ordered(target, sorted_insert(target, s, x)),
    decreases s.len(),
{
    let r = sorted_insert(target, s, x);
    let kx = closeness_key(target, x);
    if s.len() == 0 {
    } else if lex_lt(kx, closeness_key(target, s[0])) {
        assert forall|i: int, j: int|
            0 <= i < j < r.len() implies !lex_lt(closeness_key(target, #[trigger] r[j]), closeness_key(target, #[trigger] r[i])) by {
            assert(r[j] == s[j - 1]);
            if i == 0 {
                if lex_lt(closeness_key(target, s[j - 1]), kx) {
                    lemma_lex_lt_transitive(closeness_key(target, s[j - 1]), kx, closeness_key(target, s[0]));
                    if j - 1 == 0 {
                        lemma_lex_lt_irreflexive(closeness_key(target, s[0]));
                    }
                }
            } else {
                assert(r[i] == s[i - 1]);
            }
        }
    } else {
        let t = s.drop_first();
        assert forall|i: int, j: int|
            0 <= i < j < t.len() implies !lex_lt(closeness_key(target, #[trigger] t[j]), closeness_key(target, #[trigger] t[i])) by {
            assert(t[i] == s[i + 1] && t[j] == s[j + 1]);
        }
        lemma_sorted_insert_ordered(target, t, x);
        lemma_sorted_insert_members(target, t, x);
        let rt = sorted_insert(target, t, x);
        assert forall|i: int, j: int|
            0 <= i < j < r.len() implies !lex_lt(closeness_key(target, #[trigger] r[j]), closeness_key(target, #[trigger] r[i])) by {
            assert(r[j] == rt[j - 1]);
            if i == 0 {
                assert(r[0] == s[0]);
                if rt[j - 1] != x {
                    let w = choose|w: int| 0 <= w < t.len() && t[w] == rt[j - 1];
                    assert(s[w + 1] == t[w]);
                }
            } else {
                assert(r[i] == rt[i - 1]);
            }
        }
    }
}

/// Sorting by closeness puts no node before one strictly closer to the target.
pub proof fn lemma_sorted_by_closeness_ordered(target: Seq<u8>, s: Seq<Node>)
    ensures
        closeness_ordered(target, sorted_by_closeness(target, s)),
        sorted_by_closeness(target, s).len() == s.len(),
    decreases s.len(),
{
    if s.len() > 0 {
        lemma_sorted_by_closeness_ordered(target, s.drop_last());
        lemma_sorted_insert_ordered(target, sorted_by_closeness(target, s.drop_last()), s.last());
        lemma_sorted_insert_members(target, sorted_by_closeness(target, s.drop_last()), s.last());
    }
}

/// Sorts `s` by XOR distance to `target`, closest first, keeping the order of nodes at
/// equal distance.
pub fn sort_by_closeness(target: &UID, s: &Vec<Node>) -> (r: Vec<Node>)
    ensures
        r@ == sorted_by_closeness(target@, s@),
        r@.len() == s@.len(),
        closeness_ordered(target@, r@),
{
    let mut out: Vec<Node> = Vec::new();
    let mut i: usize = 0;
    while i < s.len()
        invariant
            i <= s@.len(),
            out@ == sorted_by_closeness(target@, s@.take(i as int)),
        decreases s@.len() - i,
    {
        let x = s[i];
        let kx = target.xor(&x.uid);
        let mut p: usize = 0;
        while p < out.len()
            invariant
                p <= out@.len(),
                kx@ == closeness_key(target@, x),
                forall|j: int| 0 <= j < p ==> !lex_lt(closeness_key(target@, x), closeness_key(target@, #[trigger] out@[j])),
            ensures
                p <= out@.len(),
                forall|j: int| 0 <= j < p ==> !lex_lt(closeness_key(target@, x), closeness_key(target@, #[trigger] out@[j])),
                p < out@.len() ==> lex_lt(closeness_key(target@, x), closeness_key(target@, out@[p as int])),
            decreases out@.len() - p,
        {
            let kp = target.xor(&out[p].uid);
            if lex_less(&kx.bid, &kp.bid) {
                break;
            }
            p = p + 1;
        }
        proof {
            lemma_sorted_insert_at(target@, out@, x, p as int);
            assert(s@.take(i + 1).drop_last() =~= s@.take(i as int));
            assert(s@.take(i + 1).last() == x);
        }
        out.insert(p, x);
        i = i + 1;
    }
    assert(s@.take(s@.len() as int) =~= s@);
    proof {
        lemma_sorted_by_closeness_ordered(target@, s@);
    }
    out
}

/// The state of one bucket-refresh lookup: the nodes asked so far.
pub struct FindNodeResponseListener {
    pub queries: Vec<Node>,
}

impl FindNodeResponseListener {
    /// A lookup that has asked nobody.
    pub fn new() -> (r: FindNodeResponseListener)
        ensures
            r.queries@.len() == 0,
    {
        FindNodeResponseListener { queries: Vec::new() }
    }

    /// `responder` answered a refresh `find_node` with `nodes` at `now`: it is recorded
    /// as having answered; the nodes worth asking are remembered, and each gets a
    /// `ping` unless the table takes only secure identifiers and its identifier is not
    /// bound to its address.
    pub fn on_response(&mut self, table: &mut RoutingTable, responder: Node, nodes: &Vec<Node>, now: u64) -> (r: Vec<Node>)
        requires
            old(table).wf(),
        ensures
            final(table).wf(),
            final(table).uid == old(table).uid,
            final(table).secure_only == old(table).secure_only,
            old(table).all_secure() ==> final(table).all_secure(),
            responded_marked(*old(table), *final(table), responder.uid@, now),
            ({
                let kept = to_ask(*final(table), old(self).queries@, nodes@, now);
                &&& final(self).queries@ == old(self).queries@ + kept
                &&& r@ == kept.filter(|n: Node| !final(table).secure_only || spec_secure_id(n.uid@, n.address.ip))
            }),
    {
        table.responded(&responder.uid, now);
        let kept = select_to_ask(table, &self.queries, nodes, now);
        append_all(&mut self.queries, &kept);
        let secure_only = table.is_secure_only();
        let mut out: Vec<Node> = Vec::new();
        let mut i: usize = 0;
        let ghost keep = |n: Node| !secure_only || spec_secure_id(n.uid@, n.address.ip);
        while i < kept.len()
            invariant
                i <= kept@.len(),
                secure_only == table.secure_only,
                keep == (|n: Node| !secure_only || spec_secure_id(n.uid@, n.address.ip)),
                out@ == kept@.take(i as int).filter(keep),
            decreases kept@.len() - i,
        {
            let n = kept[i];
            proof {
                assert(kept@.take(i + 1).drop_last() =~= kept@.take(i as int));
                reveal(Seq::filter);
            }
            if !secure_only || n.has_secure_id() {
                out.push(n);
            }
            i = i + 1;
        }
        assert(kept@.take(kept@.len() as int) =~= kept@);
        out
    }

    /// The refresh `find_node` got an error frame: the node was seen.
    pub fn on_error_response(&self, table: &mut RoutingTable, node: &Node, now: u64)
        requires
            old(table).wf(),
        ensures
            final(table).wf(),
            old(table).all_secure() ==> final(table).all_secure(),
            seen_marked(*old(table), *final(table), node.uid@, now),
    {
        table.seen(&node.uid, now);
    }

    /// The refresh `find_node` stalled: the node missed a reply.
    pub fn on_stalled(&self, table: &mut RoutingTable, node: &Node)
        requires
            old(table).wf(),
        ensures
            final(table).wf(),
            old(table).all_secure() ==> final(table).all_secure(),
            stale_marked(*old(table), *final(table), node.uid@),
    {
        table.mark_stale(&node.uid);
    }
}

/// One refresh query: a target at XOR distance `distance` from the local identifier,
/// and the known nodes closest to it to send `find_node` to.
pub struct RefreshQuery {
    pub distance: usize,
    pub target: UID,
    pub nodes: Vec<Node>,
}

/// The bucket refresh sweep.
pub struct BucketRefreshTask {}

impl BucketRefreshTask {
    pub fn new() -> (r: BucketRefreshTask) {
        BucketRefreshTask {}
    }

    /// For each distance from 1 to 159 whose bucket is not full, a target at that
    /// distance from the local identifier and the known-good nodes at `now` closest to
    /// it, a bucket's worth, when there are any; in increasing distance.
    pub fn execute(&self, table: &RoutingTable, now: u64) -> (r: Vec<RefreshQuery>)
        requires
            table.wf(),
        ensures
            forall|j: int| 0 <= j < r@.len() ==> {
                let q = #[trigger] r@[j];
                &&& 1 <= q.distance < ID_BITS
                &&& table.buckets@[q.distance as int].nodes@.len() < table.capacity
                &&& is_id_at_distance(table.uid@, q.distance as int, q.target@)
                &&& q.nodes@.len() > 0
                &&& closest_of(*table, q.target@, table.capacity as int, now, q.nodes@)
            },
            forall|j1: int, j2: int| 0 <= j1 < j2 < r@.len() ==> (#[trigger] r@[j1]).distance < (#[trigger] r@[j2]).distance,
            forall|d: int, c: Node|
                #![trigger table.buckets@[d], table.is_good(c, now)]
                1 <= d < ID_BITS && table.buckets@[d].nodes@.len() < table.capacity && table.is_good(c, now)
                    ==> exists|j: int| 0 <= j < r@.len() && (#[trigger] r@[j]).distance == d,
    {
        let uid = table.get_derived_uid();
        let mut out: Vec<RefreshQuery> = Vec::new();
        let mut i: usize = 1;
        while i < ID_BITS
            invariant
                1 <= i <= ID_BITS,
                table.wf(),
                uid == table.uid,
                forall|j: int| 0 <= j < out@.len() ==> {
                    let q = #[trigger] out@[j];
                    &&& 1 <= q.distance < i
                    &&& table.buckets@[q.distance as int].nodes@.len() < table.capacity
                    &&& is_id_at_distance(table.uid@, q.distance as int, q.target@)
                    &&& q.nodes@.len() > 0
                    &&& closest_of(*table, q.target@, table.capacity as int, now, q.nodes@)
                },
                forall|j1: int, j2: int| 0 <= j1 < j2 < out@.len() ==> (#[trigger] out@[j1]).distance < (#[trigger] out@[j2]).distance,
                forall|d: int, c: Node|
                #![trigger table.buckets@[d], table.is_good(c, now)]
                    1 <= d < i && table.buckets@[d].nodes@.len() < table.capacity && table.is_good(c, now)
                        ==> exists|j: int| 0 <= j < out@.len() && (#[trigger] out@[j]).distance == d,
            decreases ID_BITS - i,
        {
            if table.bucket_size(i) < table.capacity {
                let target = uid.generate_node_id_by_distance(i);
                let closest = table.find_closest(&target, table.capacity, now);
                if closest.len() > 0 {
                    let ghost before = out@;
                    out.push(RefreshQuery { distance: i, target, nodes: closest });
                    proof {
                        assert forall|d: int, c: Node|
                #![trigger table.buckets@[d], table.is_good(c, now)]
                            1 <= d < i + 1 && table.buckets@[d].nodes@.len() < table.capacity && table.is_good(c, now)
                                implies exists|j: int| 0 <= j < out@.len() && (#[trigger] out@[j]).distance == d by {
                            if d < i {
                                let j = choose|j: int| 0 <= j < before.len() && (#[trigger] before[j]).distance == d;
                                assert(out@[j] == before[j]);
                            } else {
                                assert(out@[before.len() as int].distance == d);
                            }
                        }
                    }
                } else {
                    proof {
                        assert forall|d: int, c: Node|
                #![trigger table.buckets@[d], table.is_good(c, now)]
                            1 <= d < i + 1 && table.buckets@[d].nodes@.len() < table.capacity && table.is_good(c, now)
                                implies exists|j: int| 0 <= j < out@.len() && (#[trigger] out@[j]).distance == d by {
                            if d == i {
                                assert(holds_uid(closest@, c.uid@));
                            }
                        }
                    }
                }
            }
            i = i + 1;
        }
        out
    }
}

} // verus!
