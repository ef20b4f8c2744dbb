use vstd::prelude::*;
use crate::net::IpAddress;

verus! {

/// Number of occurrences of `x` in `s`.
pub open spec fn occurrences(s: Seq<IpAddress>, x: IpAddress) -> nat
    decreases s.len(),
{
    if s.len() == 0 {
        0
    } else {
        occurrences(s.drop_last(), x) + if s.last() == x {
            1nat
        } else {
            0nat
        }
    }
}

/// `x` holds more than half of the entries of `s`.
pub open spec fn is_strict_majority(s: Seq<IpAddress>, x: IpAddress) -> bool {
    2 * occurrences(s, x) > s.len()
}

/// The Boyer-Moore majority vote over `values`: when one value holds a strict majority
/// of the entries, it is the one returned.
pub fn majority_vote(values: &Vec<IpAddress>) -> (r: IpAddress)
    requires
        values@.len() > 0,
    ensures
        forall|x: IpAddress| #[trigger] is_strict_majority(values@, x) ==> r == x,
        values@.contains(r),
{
    let ghost s = values@;
    let mut res: usize = 0;
    let mut count: usize = 1;
    let mut i: usize = 1;
    assert(s.take(1).drop_last() =~= Seq::<IpAddress>::empty());
    assert forall|x: IpAddress| x != s[0] implies 2 * #[trigger] occurrences(s.take(1), x) + 1 <= 2 by {
        assert(occurrences(s.take(1).drop_last(), x) == 0);
    }
    assert(occurrences(s.take(1).drop_last(), s[0]) == 0);
    while i < values.len()
        invariant
            1 <= i <= s.len(),
            s == values@,
            res < i,
            1 <= count <= i,
            forall|x: IpAddress|
                x != s[res as int] ==> 2 * #[trigger] occurrences(s.take(i as int), x) + count
                    <= i + 1,
            2 * occurrences(s.take(i as int), s[res as int]) <= i + count,
        decreases s.len() - i,
    {
        let ghost p = s.take(i as int);
        let ghost q = s.take(i + 1);
        let ghost c = s[res as int];
        let ghost k0 = count as int;
        assert(q.drop_last() =~= p);
        assert(q.last() == s[i as int]);
        let same = values[i] == values[res];
        if same {
            count = count + 1;
        } else if count == 1 {
            res = i;
            count = 1;
        } else {
            count = count - 1;
        }
        proof {
            assert forall|x: IpAddress| x != s[res as int] implies 2 * #[trigger] occurrences(
                s.take(i + 1),
                x,
            ) + count <= i + 2 by {
                assert(occurrences(q, x) == occurrences(p, x) + if s[i as int] == x {
                    1nat
                } else {
                    0nat
                });
                if x != c {
                    assert(2 * occurrences(p, x) + k0 <= i + 1);
                } else {
                    assert(2 * occurrences(p, c) <= i + k0);
                }
            }
            let e = s[res as int];
            assert(occurrences(q, e) == occurrences(p, e) + if s[i as int] == e {
                1nat
            } else {
                0nat
            });
            if e != c {
                assert(2 * occurrences(p, e) + k0 <= i + 1);
            }
        }
        i = i + 1;
    }
    assert(s.take(s.len() as int) =~= s);
    assert forall|x: IpAddress| #[trigger] is_strict_majority(values@, x) implies s[res as int] == x by {
        if x != s[res as int] {
            assert(2 * occurrences(s.take(i as int), x) + count <= i + 1);
        }
    }
    values[res]
}

} // verus!
