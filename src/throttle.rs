use vstd::prelude::*;
use crate::net::IpAddress;

verus! {

/// Events from one address at which it is throttled.
pub const BURST: usize = 10;

/// Events forgiven per second of decay.
pub const PER_SECOND: usize = 2;

/// Per-address leaky-bucket counters with periodic decay.
pub struct SpamThrottle {
    pub hit_counter: Vec<(IpAddress, usize)>,
    pub last_decay_time: u64,
}

/// The counter kept for `ip` (0 when it has none).
pub open spec fn count_in(entries: Seq<(IpAddress, usize)>, ip: IpAddress) -> nat {
    if exists|i: int| 0 <= i < entries.len() && (#[trigger] entries[i]).0 == ip {
        entries[choose|i: int| 0 <= i < entries.len() && (#[trigger] entries[i]).0 == ip].1 as nat
    } else {
        0
    }
}

/// Each address has at most one counter.
pub open spec fn keys_unique(entries: Seq<(IpAddress, usize)>) -> bool {
    forall|i: int, j: int|
        0 <= i < entries.len() && 0 <= j < entries.len() && i != j ==> (#[trigger] entries[i]).0
            != (#[trigger] entries[j]).0
}

proof fn lemma_count_at(entries: Seq<(IpAddress, usize)>, i: int)
    requires
        keys_unique(entries),
        0 <= i < entries.len(),
    ensures
        count_in(entries, entries[i].0) == entries[i].1,
{
    let k = choose|k: int| 0 <= k < entries.len() && (#[trigger] entries[k]).0 == entries[i].0;
    assert(k == i);
}

proof fn lemma_count_update(entries: Seq<(IpAddress, usize)>, i: int, v: usize)
    requires
        keys_unique(entries),
        0 <= i < entries.len(),
    ensures
        keys_unique(entries.update(i, (entries[i].0, v))),
        forall|ip: IpAddress| #[trigger] count_in(entries.update(i, (entries[i].0, v)), ip) == if ip == entries[i].0 {
            v as nat
        } else {
            count_in(entries, ip)
        },
{
    let e = entries.update(i, (entries[i].0, v));
    assert forall|a: int, b: int| 0 <= a < e.len() && 0 <= b < e.len() && a != b implies (#[trigger] e[a]).0 != (#[trigger] e[b]).0 by {
        assert(e[a].0 == entries[a].0 && e[b].0 == entries[b].0);
    }
    assert forall|ip: IpAddress| #[trigger] count_in(e, ip) == if ip == entries[i].0 {
        v as nat
    } else {
        count_in(entries, ip)
    } by {
        if ip == entries[i].0 {
            lemma_count_at(e, i);
        } else {
            if exists|k: int| 0 <= k < entries.len() && (#[trigger] entries[k]).0 == ip {
                let k = choose|k: int| 0 <= k < entries.len() && (#[trigger] entries[k]).0 == ip;
                assert(e[k].0 == ip);
                lemma_count_at(e, k);
                lemma_count_at(entries, k);
            } else {
                assert forall|k: int| 0 <= k < e.len() implies (#[trigger] e[k]).0 != ip by {
                    assert(e[k].0 == entries[k].0);
                }
            }
        }
    }
}

proof fn lemma_count_push(entries: Seq<(IpAddress, usize)>, ip0: IpAddress, v: usize)
    requires
        keys_unique(entries),
        count_in(entries, ip0) == 0,
        forall|k: int| 0 <= k < entries.len() ==> (#[trigger] entries[k]).0 != ip0,
    ensures
        keys_unique(entries.push((ip0, v))),
        forall|ip: IpAddress| #[trigger] count_in(entries.push((ip0, v)), ip) == if ip == ip0 {
            v as nat
        } else {
            count_in(entries, ip)
        },
{
    let e = entries.push((ip0, v));
    assert forall|a: int, b: int| 0 <= a < e.len() && 0 <= b < e.len() && a != b implies (#[trigger] e[a]).0 != (#[trigger] e[b]).0 by {
        if a < entries.len() && b < entries.len() {
            assert(e[a] == entries[a] && e[b] == entries[b]);
        } else if a < entries.len() {
            assert(e[a] == entries[a]);
        } else {
            assert(e[b] == entries[b]);
        }
    }
    assert forall|ip: IpAddress| #[trigger] count_in(e, ip) == if ip == ip0 {
        v as nat
    } else {
        count_in(entries, ip)
    } by {
        if ip == ip0 {
            lemma_count_at(e, entries.len() as int);
        } else if exists|k: int| 0 <= k < entries.len() && (#[trigger] entries[k]).0 == ip {
            let k = choose|k: int| 0 <= k < entries.len() && (#[trigger] entries[k]).0 == ip;
            assert(e[k] == entries[k]);
            lemma_count_at(e, k);
            lemma_count_at(entries, k);
        } else {
            assert forall|k: int| 0 <= k < e.len() implies (#[trigger] e[k]).0 != ip by {
                if k < entries.len() {
                    assert(e[k] == entries[k]);
                }
            }
        }
    }
}

/// A counter after `seconds` whole seconds of decay.
pub open spec fn decayed(count: nat, seconds: nat) -> nat {
    if count > seconds * PER_SECOND {
        (count - seconds * PER_SECOND) as nat
    } else {
        0
    }
}

impl SpamThrottle {
    /// The counter kept for `ip`.
    pub open spec fn count(&self, ip: IpAddress) -> nat {
        count_in(self.hit_counter@, ip)
    }

    pub open spec fn wf(&self) -> bool {
        keys_unique(self.hit_counter@)
    }

    /// A throttle with no counters, last decayed at `now` (milliseconds).
    pub fn new(now: u64) -> (r: SpamThrottle)
        ensures
            r.wf(),
            forall|ip: IpAddress| #[trigger] r.count(ip) == 0,
            r.last_decay_time == now,
    {
        SpamThrottle { hit_counter: Vec::new(), last_decay_time: now }
    }

    fn position(&self, ip: &IpAddress) -> (r: Option<usize>)
        requires
            self.wf(),
        ensures
            r is Some ==> r->0 < self.hit_counter@.len() && self.hit_counter@[r->0 as int].0 == *ip
                && self.count(*ip) == self.hit_counter@[r->0 as int].1,
            r is None ==> self.count(*ip) == 0 && forall|k: int|
                0 <= k < self.hit_counter@.len() ==> (#[trigger] self.hit_counter@[k]).0 != *ip,
    {
        let mut i: usize = 0;
        while i < self.hit_counter.len()
            invariant
                i <= self.hit_counter@.len(),
                keys_unique(self.hit_counter@),
                forall|k: int| 0 <= k < i ==> (#[trigger] self.hit_counter@[k]).0 != *ip,
            decreases self.hit_counter@.len() - i,
        {
            if self.hit_counter[i].0 == *ip {
                proof {
                    lemma_count_at(self.hit_counter@, i as int);
                }
                return Some(i);
            }
            i = i + 1;
        }
        None
    }

    /// Sets the counter of `ip` to `v`.
    fn put(&mut self, ip: IpAddress, v: usize)
        requires
            old(self).wf(),
        ensures
            final(self).wf(),
            final(self).last_decay_time == old(self).last_decay_time,
            forall|x: IpAddress| #[trigger] final(self).count(x) == if x == ip {
                v as nat
            } else {
                old(self).count(x)
            },
    {
        match self.position(&ip) {
            Some(i) => {
                proof {
                    lemma_count_update(self.hit_counter@, i as int, v);
                }
                self.hit_counter.set(i, (ip, v));
            },
            None => {
                proof {
                    lemma_count_push(self.hit_counter@, ip, v);
                }
                self.hit_counter.push((ip, v));
            },
        }
    }

    /// Counts one event from `address`, up to `BURST`, and returns the new count.
    pub fn saturating_add(&mut self, address: IpAddress) -> (r: usize)
        requires
            old(self).wf(),
        ensures
            final(self).wf(),
            final(self).last_decay_time == old(self).last_decay_time,
            r as nat == if old(self).count(address) + 1 < BURST {
                old(self).count(address) + 1
            } else {
                BURST as nat
            },
            forall|x: IpAddress| #[trigger] final(self).count(x) == if x == address {
                r as nat
            } else {
                old(self).count(x)
            },
    {
        let c = match self.position(&address) {
            Some(i) => self.hit_counter[i].1,
            None => 0,
        };
        let n = if c < BURST - 1 {
            c + 1
        } else {
            BURST
        };
        self.put(address, n);
        n
    }

    /// Counts one event from `address`; true when it has now reached `BURST` and the
    /// event is to be dropped.
    pub fn add_and_test(&mut self, address: IpAddress) -> (r: bool)
        requires
            old(self).wf(),
        ensures
            final(self).wf(),
            final(self).last_decay_time == old(self).last_decay_time,
            r == (old(self).count(address) + 1 >= BURST),
            forall|x: IpAddress| #[trigger] final(self).count(x) == if x == address {
                if old(self).count(address) + 1 < BURST {
                    old(self).count(address) + 1
                } else {
                    BURST as nat
                }
            } else {
                old(self).count(x)
            },
    {
        let count = self.saturating_add(address);
        count >= BURST
    }

    /// Forgets the counter of `address`.
    pub fn remove(&mut self, address: IpAddress)
        requires
            old(self).wf(),
        ensures
            final(self).wf(),
            final(self).last_decay_time == old(self).last_decay_time,
            forall|x: IpAddress| #[trigger] final(self).count(x) == if x == address {
                0
            } else {
                old(self).count(x)
            },
    {
        self.put(address, 0);
    }

    /// Whether `address` is throttled, without counting an event.
    pub fn test(&self, address: IpAddress) -> (r: bool)
        requires
            self.wf(),
        ensures
            r == (self.count(address) >= BURST),
    {
        match self.position(&address) {
            Some(i) => self.hit_counter[i].1 >= BURST,
            None => false,
        }
    }

    /// Counts one event from `address` without a ceiling and returns how long, in
    /// milliseconds, the sender should wait: nothing up to `BURST` events, then half a
    /// second per event beyond it.
    pub fn calculate_delay_and_add(&mut self, address: IpAddress) -> (r: usize)
        requires
            old(self).wf(),
        ensures
            final(self).wf(),
            final(self).last_decay_time == old(self).last_decay_time,
            ({
                let c = if old(self).count(address) < usize::MAX {
                    old(self).count(address) + 1
                } else {
                    usize::MAX as nat
                };
                &&& final(self).count(address) == c
                &&& c <= BURST ==> r == 0
                &&& c > BURST && (c - BURST) * 1000 <= usize::MAX ==> r as int == (c - BURST) * 1000 / (PER_SECOND as int)
                &&& c > BURST && (c - BURST) * 1000 > usize::MAX ==> r == usize::MAX
            }),
            forall|x: IpAddress| x != address ==> #[trigger] final(self).count(x) == old(self).count(x),
    {
        let c = match self.position(&address) {
            Some(i) => self.hit_counter[i].1,
            None => 0,
        };
        let n = if c < usize::MAX {
            c + 1
        } else {
            usize::MAX
        };
        self.put(address, n);
        if n <= BURST {
            0
        } else if n - BURST <= usize::MAX / 1000 {
            (n - BURST) * 1000 / PER_SECOND
        } else {
            usize::MAX
        }
    }

    /// Forgives one event of `address`.
    pub fn saturating_dec(&mut self, address: IpAddress)
        requires
            old(self).wf(),
        ensures
            final(self).wf(),
            final(self).last_decay_time == old(self).last_decay_time,
            forall|x: IpAddress| #[trigger] final(self).count(x) == if x == address && old(self).count(x) > 0 {
                (old(self).count(x) - 1) as nat
            } else {
                old(self).count(x)
            },
    {
        match self.position(&address) {
            Some(i) => {
                let c = self.hit_counter[i].1;
                if c > 0 {
                    self.put(address, c - 1);
                }
            },
            None => {},
        }
    }

    /// Forgives `PER_SECOND` events per whole second elapsed since the last decay, when
    /// at least one second has elapsed by `now` (milliseconds).
    pub fn decay(&mut self, now: u64)
        requires
            old(self).wf(),
        ensures
            final(self).wf(),
            now < old(self).last_decay_time + 1000 ==> *final(self) == *old(self),
            now >= old(self).last_decay_time + 1000 ==> final(self).last_decay_time == now,
            now >= old(self).last_decay_time + 1000 ==> forall|x: IpAddress| #[trigger] final(self).count(x)
                == decayed(old(self).count(x), ((now - old(self).last_decay_time) / 1000) as nat),
    {
        if now < self.last_decay_time || (now - self.last_decay_time) / 1000 < 1 {
            return;
        }
        let delta_t = (now - self.last_decay_time) / 1000;
        self.last_decay_time = now;
        let delta_count: u64 = if delta_t <= u64::MAX / 2 {
            delta_t * 2
        } else {
            u64::MAX
        };
        let ghost old_entries = self.hit_counter@;
        let ghost dc = delta_t * PER_SECOND;
        let mut i: usize = 0;
        while i < self.hit_counter.len()
            invariant
                i <= self.hit_counter@.len(),
                self.hit_counter@.len() == old_entries.len(),
                keys_unique(old_entries),
                self.last_decay_time == now,
                delta_t >= 1,
                dc == delta_t * PER_SECOND,
                delta_count as int == if dc <= u64::MAX {
                    dc
                } else {
                    u64::MAX as int
                },
                forall|k: int| 0 <= k < self.hit_counter@.len() ==> (#[trigger] self.hit_counter@[k]).0 == old_entries[k].0,
                forall|k: int| 0 <= k < i ==> (#[trigger] self.hit_counter@[k]).1 == if old_entries[k].1 > dc {
                    (old_entries[k].1 - dc) as usize
                } else {
                    0
                },
                forall|k: int| i <= k < self.hit_counter@.len() ==> #[trigger] self.hit_counter@[k] == old_entries[k],
            decreases self.hit_counter@.len() - i,
        {
            let (ip, v) = self.hit_counter[i];
            let nv = if (v as u64) > delta_count {
                v - delta_count as usize
            } else {
                0
            };
            self.hit_counter.set(i, (ip, nv));
            i = i + 1;
        }
        proof {
            let e = self.hit_counter@;
            assert(keys_unique(e)) by {
                assert forall|a: int, b: int| 0 <= a < e.len() && 0 <= b < e.len() && a != b implies (#[trigger] e[a]).0 != (#[trigger] e[b]).0 by {
                    assert(e[a].0 == old_entries[a].0 && e[b].0 == old_entries[b].0);
                }
            }
            assert forall|x: IpAddress| #[trigger] count_in(e, x) == decayed(count_in(old_entries, x), delta_t as nat) by {
                if exists|k: int| 0 <= k < old_entries.len() && (#[trigger] old_entries[k]).0 == x {
                    let k = choose|k: int| 0 <= k < old_entries.len() && (#[trigger] old_entries[k]).0 == x;
                    lemma_count_at(old_entries, k);
                    lemma_count_at(e, k);
                } else {
                    assert forall|k: int| 0 <= k < e.len() implies (#[trigger] e[k]).0 != x by {
                        assert(e[k].0 == old_entries[k].0);
                    }
                }
            }
        }
    }
}

} // verus!
