use vstd::prelude::*;

verus! {

/// Decimal text of an integer, as Rust's `Display` writes it: a minus sign for a
/// negative value, then the digits without leading zeros.
pub open spec fn decimal_of(v: int) -> Seq<u8>
    decreases (if v < 0 { -v + 1 } else { v }),
{
    if v < 0 {
        seq![45u8] + decimal_of(-v)
    } else if v < 10 {
        seq![(48 + v) as u8]
    } else {
        decimal_of(v / 10) + seq![(48 + v % 10) as u8]
    }
}

/// Whether a byte is an ASCII digit.
pub open spec fn is_digit(b: u8) -> bool {
    48 <= b <= 57
}

/// Value of a string of ASCII digits.
pub open spec fn digits_value(s: Seq<u8>) -> int
    decreases s.len(),
{
    if s.len() == 0 {
        0
    } else {
        digits_value(s.drop_last()) * 10 + (s.last() - 48)
    }
}

proof fn lemma_decimal_digits(n: int)
    requires
        n >= 0,
    ensures
        decimal_of(n).len() >= 1,
        forall|i: int| 0 <= i < decimal_of(n).len() ==> is_digit(#[trigger] decimal_of(n)[i]),
        digits_value(decimal_of(n)) == n,
        decimal_of(n)[0] == 48 ==> n == 0,
        n == 0 ==> decimal_of(n).len() == 1,
    decreases n,
{
    if n >= 10 {
        lemma_decimal_digits(n / 10);
        let p = decimal_of(n / 10);
        let s = decimal_of(n);
        assert(s == p + seq![(48 + n % 10) as u8]);
        assert(s.drop_last() =~= p);
        assert forall|i: int| 0 <= i < s.len() implies is_digit(#[trigger] s[i]) by {
            if i < p.len() {
                assert(s[i] == p[i]);
            }
        }
        assert(s[0] == p[0]);
        assert(s.last() == (48 + n % 10) as u8);
        assert(digits_value(s) == digits_value(p) * 10 + (s.last() - 48));
        assert((n / 10) * 10 + n % 10 == n);
    } else {
        let s = decimal_of(n);
        assert(s.drop_last() =~= Seq::<u8>::empty());
        assert(digits_value(s.drop_last()) == 0);
        assert(digits_value(s) == digits_value(s.drop_last()) * 10 + (s.last() - 48));
    }
}

/// Different integers have different decimal texts.
pub proof fn lemma_decimal_injective(a: int, b: int)
    requires
        decimal_of(a) == decimal_of(b),
    ensures
        a == b,
{
    if a >= 0 && b >= 0 {
        lemma_decimal_digits(a);
        lemma_decimal_digits(b);
    } else if a < 0 && b < 0 {
        lemma_decimal_digits(-a);
        lemma_decimal_digits(-b);
        assert(decimal_of(-a) =~= decimal_of(a).drop_first());
        assert(decimal_of(-b) =~= decimal_of(b).drop_first());
    } else if a < 0 {
        lemma_decimal_digits(b);
        assert(decimal_of(a)[0] == 45u8);
        assert(is_digit(decimal_of(b)[0]));
    } else {
        lemma_decimal_digits(a);
        assert(decimal_of(b)[0] == 45u8);
        assert(is_digit(decimal_of(a)[0]));
    }
}

proof fn lemma_digits_value_prefix(s: Seq<u8>, i: int)
    requires
        0 <= i <= s.len(),
        forall|k: int| 0 <= k < s.len() ==> is_digit(#[trigger] s[k]),
    ensures
        0 <= digits_value(s.take(i)) <= digits_value(s),
    decreases s.len() - i,
{
    if i < s.len() {
        lemma_digits_value_prefix(s, i + 1);
        assert(s.take(i + 1).drop_last() =~= s.take(i));
    } else {
        assert(s.take(i) =~= s);
        lemma_digits_nonneg(s);
    }
}

proof fn lemma_digits_nonneg(s: Seq<u8>)
    requires
        forall|k: int| 0 <= k < s.len() ==> is_digit(#[trigger] s[k]),
    ensures
        digits_value(s) >= 0,
    decreases s.len(),
{
    if s.len() > 0 {
        lemma_digits_nonneg(s.drop_last());
    }
}

/// Reads the decimal text of an `i32` as `Display` writes it; any other text gives
/// `None`.
pub fn parse_i32(s: &[u8]) -> (r: Option<i32>)
    ensures
        r is Some ==> decimal_of(r->0 as int) == s@,
        forall|v: i32| #[trigger] decimal_of(v as int) == s@ ==> r == Some(v),
{
    let negative = s.len() > 0 && s[0] == 45;
    let start: usize = if negative {
        1
    } else {
        0
    };
    let ghost body = s@.subrange(start as int, s@.len() as int);
    proof {
        // on the decimal text of an i32 the reading below succeeds
        assert forall|v: i32| #[trigger] decimal_of(v as int) == s@ implies {
            &&& negative == (v < 0)
            &&& body == decimal_of(if v < 0 { -(v as int) } else { v as int })
        } by {
            if v < 0 {
                lemma_decimal_digits(-(v as int));
                assert(s@[0] == 45u8);
                assert(body =~= decimal_of(-(v as int)));
            } else {
                lemma_decimal_digits(v as int);
                assert(is_digit(s@[0]));
                assert(body =~= s@);
            }
        }
    }
    if s.len() <= start {
        proof {
            assert forall|v: i32| #[trigger] decimal_of(v as int) != s@ by {
                if decimal_of(v as int) == s@ {
                    lemma_decimal_digits(if v < 0 { -(v as int) } else { v as int });
                }
            }
        }
        return None;
    }
    if s[start] == 48 && s.len() > start + 1 {
        proof {
            assert forall|v: i32| #[trigger] decimal_of(v as int) != s@ by {
                if decimal_of(v as int) == s@ {
                    let m = if v < 0 { -(v as int) } else { v as int };
                    lemma_decimal_digits(m);
                    assert(body[0] == 48u8);
                }
            }
        }
        return None;
    }
    let mut m: u64 = 0;
    let mut i: usize = start;
    while i < s.len()
        invariant
            start <= i <= s@.len(),
            start == (if negative { 1int } else { 0int }),
            body == s@.subrange(start as int, s@.len() as int),
            s@.len() > start,
            s@[start as int] != 48u8 || s@.len() == start + 1,
            forall|k: int| start <= k < i ==> is_digit(#[trigger] s@[k]),
            m as int == digits_value(s@.subrange(start as int, i as int)),
            m <= 2147483648,
            i > start ==> decimal_of(m as int) == s@.subrange(start as int, i as int),
            forall|v: i32| #[trigger] decimal_of(v as int) == s@ ==> negative == (v < 0) && body == decimal_of(if v < 0 { -(v as int) } else { v as int }),
        decreases s@.len() - i,
    {
        let c = s[i];
        let ghost pre = s@.subrange(start as int, i as int);
        let ghost next = s@.subrange(start as int, i + 1);
        assert(next.drop_last() =~= pre);
        if c < 48 || c > 57 {
            proof {
                assert forall|v: i32| #[trigger] decimal_of(v as int) != s@ by {
                    if decimal_of(v as int) == s@ {
                        let mm = if v < 0 { -(v as int) } else { v as int };
                        lemma_decimal_digits(mm);
                        assert(body[i - start] == s@[i as int]);
                    }
                }
            }
            return None;
        }
        let d = (c - 48) as u64;
        if m > 214748364 || (m == 214748364 && d > 8) {
            proof {
                assert forall|v: i32| #[trigger] decimal_of(v as int) != s@ by {
                    if decimal_of(v as int) == s@ {
                        let mm = if v < 0 { -(v as int) } else { v as int };
                        lemma_decimal_digits(mm);
                        assert forall|k: int| 0 <= k < body.len() implies is_digit(#[trigger] body[k]) by {}
                        lemma_digits_value_prefix(body, i + 1 - start);
                        assert(body.take(i + 1 - start) =~= next);
                        assert(digits_value(next) == m * 10 + d);
                    }
                }
            }
            return None;
        }
        proof {
            if i > start {
                assert(m >= 1) by {
                    if m == 0 {
                        assert(decimal_of(0) == seq![48u8]);
                        assert(pre[0] == 48u8);
                    }
                }
                let nv = m * 10 + d;
                assert(nv / 10 == m && nv % 10 == d);
                assert(decimal_of(nv as int) == decimal_of(m as int) + seq![(48 + d) as u8]);
                assert(next =~= pre + seq![c]);
            } else {
                assert(next =~= seq![c]);
                assert(decimal_of(d as int) == seq![(48 + d) as u8]);
            }
        }
        m = m * 10 + d;
        i = i + 1;
    }
    assert(s@.subrange(start as int, i as int) == body);
    if negative {
        if m == 0 {
            proof {
                assert forall|v: i32| #[trigger] decimal_of(v as int) != s@ by {
                    if decimal_of(v as int) == s@ {
                        lemma_decimal_digits(-(v as int));
                        assert(body =~= seq![48u8]);
                        assert(decimal_of(-(v as int))[0] == 48u8);
                    }
                }
            }
            return None;
        }
        let v: i64 = -(m as i64);
        proof {
            assert(s@ =~= seq![45u8] + body);
        }
        let r = v as i32;
        proof {
            assert(decimal_of(r as int) == seq![45u8] + decimal_of(m as int));
            assert forall|v: i32| #[trigger] decimal_of(v as int) == s@ implies Some(r) == Some(v) by {
                lemma_decimal_injective(v as int, r as int);
            }
        }
        Some(r)
    } else {
        if m > 2147483647 {
            proof {
                assert forall|v: i32| #[trigger] decimal_of(v as int) != s@ by {
                    if decimal_of(v as int) == s@ {
                        lemma_decimal_digits(v as int);
                        assert(s@ =~= body);
                    }
                }
            }
            return None;
        }
        let r = m as i32;
        proof {
            assert(s@ =~= body);
            assert forall|v: i32| #[trigger] decimal_of(v as int) == s@ implies Some(r) == Some(v) by {
                lemma_decimal_injective(v as int, r as int);
            }
        }
        Some(r)
    }
}

} // verus!
