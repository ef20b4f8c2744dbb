use vstd::prelude::*;
use crate::net::SocketAddress;
use crate::node::Node;
use crate::messages::Method;

verus! {

/// Length of a transaction identifier in bytes.
pub const TID_LENGTH: usize = 6;

/// Milliseconds after which a call with no answer is stalled.
pub const STALL_TIMEOUT: u64 = 8000;

/// An outstanding request: its transaction identifier, when it was sent, where it went,
/// the method it asked for, the node it was meant for if any, and what the caller
/// keeps with it.
pub struct Call<T> {
    pub tid: [u8; 6],
    pub sent_at: u64,
    pub destination: Option<SocketAddress>,
    pub method: Method,
    pub node: Option<Node>,
    pub payload: T,
}

/// The call was sent at least `STALL_TIMEOUT` milliseconds before `now`.
pub open spec fn is_stalled<T>(c: Call<T>, now: u64) -> bool {
    now >= c.sent_at && now - c.sent_at >= STALL_TIMEOUT
}

/// Whether a call is stalled at `now`.
pub fn call_stalled<T>(c: &Call<T>, now: u64) -> (r: bool)
    ensures
        r == is_stalled(*c, now),
{
    now >= c.sent_at && now - c.sent_at >= STALL_TIMEOUT
}

/// At most one call per transaction identifier.
pub open spec fn tids_unique<T>(s: Seq<Call<T>>) -> bool {
    forall|i: int, j: int|
        0 <= i < s.len() && 0 <= j < s.len() && i != j ==> (#[trigger] s[i]).tid@ != (#[trigger] s[j]).tid@
}

/// The call with transaction identifier `tid` in `s`, if there is one.
pub open spec fn call_for<T>(s: Seq<Call<T>>, tid: Seq<u8>) -> Option<Call<T>> {
    if exists|i: int| 0 <= i < s.len() && (#[trigger] s[i]).tid@ == tid {
        Some(s[choose|i: int| 0 <= i < s.len() && (#[trigger] s[i]).tid@ == tid])
    } else {
        None
    }
}

proof fn lemma_call_at<T>(s: Seq<Call<T>>, i: int)
    requires
        tids_unique(s),
        0 <= i < s.len(),
    ensures
        call_for(s, s[i].tid@) == Some(s[i]),
{
    let k = choose|k: int| 0 <= k < s.len() && (#[trigger] s[k]).tid@ == s[i].tid@;
    assert(k == i);
}

proof fn lemma_no_call<T>(s: Seq<Call<T>>, tid: Seq<u8>)
    requires
        forall|k: int| 0 <= k < s.len() ==> (#[trigger] s[k]).tid@ != tid,
    ensures
        call_for(s, tid) is None,
{
}

fn same_tid(a: &[u8; 6], b: &[u8; 6]) -> (r: bool)
    ensures
        r == (a@ == b@),
{
    let mut i: usize = 0;
    while i < TID_LENGTH
        invariant
            i <= TID_LENGTH,
            a@.len() == 6,
            b@.len() == 6,
            forall|j: int| 0 <= j < i ==> a@[j] == b@[j],
        decreases TID_LENGTH - i,
    {
        if a[i] != b[i] {
            return false;
        }
        i = i + 1;
    }
    assert(a@ =~= b@);
    true
}

/// The outstanding calls, one per transaction identifier.
pub struct ResponseTracker<T> {
    pub calls: Vec<Call<T>>,
}

impl<T> ResponseTracker<T> {
    pub open spec fn wf(&self) -> bool {
        tids_unique(self.calls@)
    }

    /// The call waiting under `tid`.
    pub open spec fn lookup(&self, tid: Seq<u8>) -> Option<Call<T>> {
        call_for(self.calls@, tid)
    }

    /// A tracker with no calls.
    pub fn new() -> (r: ResponseTracker<T>)
        ensures
            r.wf(),
            forall|t: Seq<u8>| #[trigger] r.lookup(t) is None,
    {
        ResponseTracker { calls: Vec::new() }
    }

    fn position(&self, tid: &[u8; 6]) -> (r: Option<usize>)
        requires
            self.wf(),
        ensures
            r is Some ==> r->0 < self.calls@.len() && self.calls@[r->0 as int].tid@ == tid@,
            r is None ==> forall|k: int| 0 <= k < self.calls@.len() ==> (#[trigger] self.calls@[k]).tid@ != tid@,
    {
        let mut i: usize = 0;
        while i < self.calls.len()
            invariant
                i <= self.calls@.len(),
                forall|k: int| 0 <= k < i ==> (#[trigger] self.calls@[k]).tid@ != tid@,
            decreases self.calls@.len() - i,
        {
            if same_tid(&self.calls[i].tid, tid) {
                return Some(i);
            }
            i = i + 1;
        }
        None
    }

    /// Whether a call waits under `tid`.
    pub fn contains(&self, tid: &[u8; 6]) -> (r: bool)
        requires
            self.wf(),
        ensures
            r == self.lookup(tid@) is Some,
    {
        match self.position(tid) {
            Some(i) => {
                proof {
                    lemma_call_at(self.calls@, i as int);
                }
                true
            },
            None => false,
        }
    }

    /// Number of outstanding calls.
    pub fn len(&self) -> (r: usize)
        ensures
            r == self.calls@.len(),
    {
        self.calls.len()
    }

    /// Registers `call` under its transaction identifier, replacing a call already
    /// waiting under it.
    pub fn add(&mut self, call: Call<T>)
        requires
            old(self).wf(),
        ensures
            final(self).wf(),
            final(self).lookup(call.tid@) == Some(call),
            forall|t: Seq<u8>| t != call.tid@ ==> #[trigger] final(self).lookup(t) == old(self).lookup(t),
    {
        let ghost s = self.calls@;
        let ghost c = call;
        match self.position(&call.tid) {
            Some(i) => {
                self.calls.set(i, call);
                proof {
                    let n = self.calls@;
                    assert forall|a: int, b: int| 0 <= a < n.len() && 0 <= b < n.len() && a != b implies (#[trigger] n[a]).tid@ != (#[trigger] n[b]).tid@ by {
                        assert(n[a].tid@ == s[a].tid@ && n[b].tid@ == s[b].tid@);
                    }
                    lemma_call_at(n, i as int);
                    assert forall|t: Seq<u8>| t != c.tid@ implies #[trigger] call_for(n, t) == call_for(s, t) by {
                        if exists|k: int| 0 <= k < s.len() && (#[trigger] s[k]).tid@ == t {
                            let k = choose|k: int| 0 <= k < s.len() && (#[trigger] s[k]).tid@ == t;
                            assert(n[k] == s[k]);
                            lemma_call_at(n, k);
                            lemma_call_at(s, k);
                        } else {
                            assert forall|k: int| 0 <= k < n.len() implies (#[trigger] n[k]).tid@ != t by {
                                assert(n[k].tid@ == s[k].tid@);
                            }
                        }
                    }
                }
            },
            None => {
                self.calls.push(call);
                proof {
                    let n = self.calls@;
                    assert forall|a: int, b: int| 0 <= a < n.len() && 0 <= b < n.len() && a != b implies (#[trigger] n[a]).tid@ != (#[trigger] n[b]).tid@ by {
                        if a < s.len() {
                            assert(n[a] == s[a]);
                        }
                        if b < s.len() {
                            assert(n[b] == s[b]);
                        }
                    }
                    lemma_call_at(n, s.len() as int);
                    assert forall|t: Seq<u8>| t != c.tid@ implies #[trigger] call_for(n, t) == call_for(s, t) by {
                        if exists|k: int| 0 <= k < s.len() && (#[trigger] s[k]).tid@ == t {
                            let k = choose|k: int| 0 <= k < s.len() && (#[trigger] s[k]).tid@ == t;
                            assert(n[k] == s[k]);
                            lemma_call_at(n, k);
                            lemma_call_at(s, k);
                        } else {
                            assert forall|k: int| 0 <= k < n.len() implies (#[trigger] n[k]).tid@ != t by {
                                if k < s.len() {
                                    assert(n[k] == s[k]);
                                }
                            }
                        }
                    }
                }
            },
        }
    }

    /// Takes out the call waiting under `tid`, if there is one.
    pub fn poll(&mut self, tid: &[u8; 6]) -> (r: Option<Call<T>>)
        requires
            old(self).wf(),
        ensures
            final(self).wf(),
            r == old(self).lookup(tid@),
            final(self).lookup(tid@) is None,
            forall|t: Seq<u8>| t != tid@ ==> #[trigger] final(self).lookup(t) == old(self).lookup(t),
    {
        let ghost s = self.calls@;
        match self.position(tid) {
            Some(i) => {
                let c = self.calls.remove(i);
                proof {
                    let n = self.calls@;
                    lemma_call_at(s, i as int);
                    assert forall|k: int| 0 <= k < n.len() implies #[trigger] n[k] == if k < i {
                        s[k]
                    } else {
                        s[k + 1]
                    } by {}
                    assert forall|a: int, b: int| 0 <= a < n.len() && 0 <= b < n.len() && a != b implies (#[trigger] n[a]).tid@ != (#[trigger] n[b]).tid@ by {
                        let oa = if a < i { a } else { a + 1 };
                        let ob = if b < i { b } else { b + 1 };
                        assert(n[a] == s[oa] && n[b] == s[ob]);
                    }
                    assert forall|k: int| 0 <= k < n.len() implies (#[trigger] n[k]).tid@ != tid@ by {
                        let ok = if k < i { k } else { k + 1 };
                        assert(n[k] == s[ok]);
                    }
                    assert forall|t: Seq<u8>| t != tid@ implies #[trigger] call_for(n, t) == call_for(s, t) by {
                        if exists|k: int| 0 <= k < s.len() && (#[trigger] s[k]).tid@ == t {
                            let k = choose|k: int| 0 <= k < s.len() && (#[trigger] s[k]).tid@ == t;
                            assert(k != i);
                            let nk = if k < i { k } else { k - 1 };
                            assert(n[nk] == s[k]);
                            lemma_call_at(n, nk);
                            lemma_call_at(s, k);
                        } else {
                            assert forall|k: int| 0 <= k < n.len() implies (#[trigger] n[k]).tid@ != t by {
                                let ok = if k < i { k } else { k + 1 };
                                assert(n[k] == s[ok]);
                            }
                        }
                    }
                }
                Some(c)
            },
            None => None,
        }
    }

    /// Takes out every call stalled at `now`, oldest registration first.
    pub fn remove_stalled(&mut self, now: u64) -> (r: Vec<Call<T>>)
        requires
            old(self).wf(),
        ensures
            final(self).wf(),
            forall|t: Seq<u8>| #[trigger] final(self).lookup(t) == match old(self).lookup(t) {
                Some(c) => if is_stalled(c, now) {
                    None
                } else {
                    Some(c)
                },
                None => None,
            },
            forall|k: int| 0 <= k < r@.len() ==> is_stalled(#[trigger] r@[k], now) && old(self).lookup(r@[k].tid@) == Some(r@[k]),
            forall|t: Seq<u8>|
                #[trigger] old(self).lookup(t) is Some && is_stalled(old(self).lookup(t)->0, now) ==> exists|k: int|
                    0 <= k < r@.len() && r@[k].tid@ == t,
    {
        let ghost s = self.calls@;
        let mut rest: Vec<Call<T>> = Vec::new();
        std::mem::swap(&mut rest, &mut self.calls);
        let mut kept: Vec<Call<T>> = Vec::new();
        let mut out: Vec<Call<T>> = Vec::new();
        let ghost mut idx: Seq<int> = Seq::empty();
        let ghost mut oidx: Seq<int> = Seq::empty();
        let mut i: usize = 0;
        let n = rest.len();
        assert(rest@ == s);
        while rest.len() > 0
            invariant
                tids_unique(s),
                i + rest@.len() == s.len(),
                n == s.len(),
                forall|k: int| 0 <= k < rest@.len() ==> #[trigger] rest@[k] == s[k + i],
                idx.len() == kept@.len(),
                oidx.len() == out@.len(),
                forall|j: int| 0 <= j < kept@.len() ==> 0 <= #[trigger] idx[j] < i && kept@[j] == s[idx[j]] && !is_stalled(s[idx[j]], now),
                forall|j1: int, j2: int| 0 <= j1 < j2 < kept@.len() ==> #[trigger] idx[j1] < #[trigger] idx[j2],
                forall|j: int| 0 <= j < out@.len() ==> 0 <= #[trigger] oidx[j] < i && out@[j] == s[oidx[j]] && is_stalled(s[oidx[j]], now),
                forall|k: int| 0 <= k < i && !is_stalled(#[trigger] s[k], now) ==> exists|j: int| 0 <= j < kept@.len() && idx[j] == k,
                forall|k: int| 0 <= k < i && is_stalled(#[trigger] s[k], now) ==> exists|j: int| 0 <= j < out@.len() && oidx[j] == k,
            decreases rest@.len(),
        {
            let c = rest.remove(0);
            assert(c == s[i as int]);
            if call_stalled(&c, now) {
                out.push(c);
                proof {
                    let ghost prev = oidx;
                    oidx = oidx.push(i as int);
                    assert forall|k: int| 0 <= k < i + 1 && is_stalled(#[trigger] s[k], now) implies exists|j: int| 0 <= j < out@.len() && oidx[j] == k by {
                        if k == i {
                            assert(oidx[prev.len() as int] == k);
                        } else {
                            let j = choose|j: int| 0 <= j < prev.len() && prev[j] == k;
                            assert(oidx[j] == prev[j]);
                        }
                    }
                }
            } else {
                kept.push(c);
                proof {
                    let ghost prev = idx;
                    idx = idx.push(i as int);
                    assert forall|k: int| 0 <= k < i + 1 && !is_stalled(#[trigger] s[k], now) implies exists|j: int| 0 <= j < kept@.len() && idx[j] == k by {
                        if k == i {
                            assert(idx[prev.len() as int] == k);
                        } else {
                            let j = choose|j: int| 0 <= j < prev.len() && prev[j] == k;
                            assert(idx[j] == prev[j]);
                        }
                    }
                }
            }
            i = i + 1;
        }
        self.calls = kept;
        proof {
            let m = self.calls@;
            assert forall|a: int, b: int| 0 <= a < m.len() && 0 <= b < m.len() && a != b implies (#[trigger] m[a]).tid@ != (#[trigger] m[b]).tid@ by {
                if a < b {
                    assert(idx[a] < idx[b]);
                } else {
                    assert(idx[b] < idx[a]);
                }
            }
            assert forall|t: Seq<u8>| #[trigger] call_for(m, t) == match call_for(s, t) {
                Some(c) => if is_stalled(c, now) {
                    None
                } else {
                    Some(c)
                },
                None => None,
            } by {
                if exists|k: int| 0 <= k < s.len() && (#[trigger] s[k]).tid@ == t {
                    let k = choose|k: int| 0 <= k < s.len() && (#[trigger] s[k]).tid@ == t;
                    lemma_call_at(s, k);
                    if is_stalled(s[k], now) {
                        assert forall|j: int| 0 <= j < m.len() implies (#[trigger] m[j]).tid@ != t by {
                            assert(m[j] == s[idx[j]]);
                            if m[j].tid@ == t {
                                assert(idx[j] == k);
                            }
                        }
                    } else {
                        let j = choose|j: int| 0 <= j < m.len() && idx[j] == k;
                        assert(m[j] == s[k]);
                        lemma_call_at(m, j);
                    }
                } else {
                    assert forall|j: int| 0 <= j < m.len() implies (#[trigger] m[j]).tid@ != t by {
                        assert(m[j] == s[idx[j]]);
                    }
                }
            }
            assert forall|k: int| 0 <= k < out@.len() implies is_stalled(#[trigger] out@[k], now) && call_for(s, out@[k].tid@) == Some(out@[k]) by {
                lemma_call_at(s, oidx[k]);
            }
            assert forall|t: Seq<u8>|
                #[trigger] call_for(s, t) is Some && is_stalled(call_for(s, t)->0, now) implies exists|k: int|
                    0 <= k < out@.len() && out@[k].tid@ == t by {
                let k = choose|k: int| 0 <= k < s.len() && (#[trigger] s[k]).tid@ == t;
                let j = choose|j: int| 0 <= j < out@.len() && oidx[j] == k;
                assert(out@[j] == s[k]);
            }
        }
        out
    }
}

} // verus!
