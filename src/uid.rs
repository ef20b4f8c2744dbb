use vstd::prelude::*;
use vstd::string::StringSliceAdditionalSpecFns;

verus! {

/// Length of a node identifier in bytes.
pub const ID_LENGTH: usize = 20;

/// Length of a node identifier in bits.
pub const ID_BITS: usize = 160;

/// A 160-bit node identifier.
#[derive(Clone, Copy, Debug)]
pub struct UID {
    pub bid: [u8; 20],
}

/// Bit `k` (0 = most significant) of a byte.
pub open spec fn byte_bit(b: u8, k: int) -> bool {
    ((b >> ((7 - k) as u8)) & 1u8) == 1u8
}

/// Bit `i` of a byte string, counted from the most significant bit of its first byte.
pub open spec fn bit_at(s: Seq<u8>, i: int) -> bool {
    byte_bit(s[i / 8], i % 8)
}

/// Bytewise exclusive or.
pub open spec fn xor_seq(a: Seq<u8>, b: Seq<u8>) -> Seq<u8> {
    Seq::new(a.len(), |i: int| a[i] ^ b[i])
}

/// Index of the first set bit at or after `i`, or the bit length when there is none.
pub open spec fn first_set_from(s: Seq<u8>, i: int) -> int
    decreases s.len() * 8 - i,
{
    if i < 0 || i >= s.len() * 8 {
        (s.len() * 8) as int
    } else if bit_at(s, i) {
        i
    } else {
        first_set_from(s, i + 1)
    }
}

/// Number of leading zero bits of a byte string.
pub open spec fn leading_zero_bits(s: Seq<u8>) -> int {
    first_set_from(s, 0)
}

/// XOR distance of two identifiers: 160 minus the length of their common prefix.
pub open spec fn spec_distance(a: Seq<u8>, b: Seq<u8>) -> int {
    ID_BITS - leading_zero_bits(xor_seq(a, b))
}

impl UID {
    pub open spec fn view(&self) -> Seq<u8> {
        self.bid@
    }
}

proof fn lemma_zero_byte_bits(b: u8, k: int)
    requires
        b == 0,
        0 <= k < 8,
    ensures
        !byte_bit(b, k),
{
    let j = (7 - k) as u8;
    assert(((b >> j) & 1u8) != 1u8) by (bit_vector)
        requires
            b == 0u8,
    ;
}

proof fn lemma_xor_byte_bit(a: u8, b: u8, k: int)
    requires
        0 <= k < 8,
    ensures
        byte_bit(a ^ b, k) == (byte_bit(a, k) != byte_bit(b, k)),
{
    let j = (7 - k) as u8;
    assert((((a ^ b) >> j) & 1u8 == 1u8) == (((a >> j) & 1u8 == 1u8) != ((b >> j) & 1u8 == 1u8)))
        by (bit_vector);
}

/// A bit of an exclusive or is set exactly where the operands differ.
pub proof fn lemma_xor_bit(a: Seq<u8>, b: Seq<u8>, i: int)
    requires
        a.len() == b.len(),
        0 <= i < a.len() * 8,
    ensures
        bit_at(xor_seq(a, b), i) == (bit_at(a, i) != bit_at(b, i)),
{
    assert(0 <= i / 8 < a.len()) by (nonlinear_arith)
        requires
            0 <= i < a.len() * 8,
    ;
    lemma_xor_byte_bit(a[i / 8], b[i / 8], i % 8);
}

/// Skipping a run of clear bits does not move the first set bit.
pub proof fn lemma_first_set_skip(s: Seq<u8>, i: int, n: int)
    requires
        0 <= i <= n <= s.len() * 8,
        forall|k: int| i <= k < n ==> !bit_at(s, k),
    ensures
        first_set_from(s, i) == first_set_from(s, n),
    decreases n - i,
{
    if i < n {
        lemma_first_set_skip(s, i + 1, n);
    }
}

/// The first set bit at or after `i` lies between `i` and the bit length.
pub proof fn lemma_first_set_bounds(s: Seq<u8>, i: int)
    requires
        0 <= i,
    ensures
        i <= first_set_from(s, i) <= s.len() * 8 || (i > s.len() * 8 && first_set_from(s, i) == s.len() * 8),
    decreases s.len() * 8 - i,
{
    if i < s.len() * 8 && !bit_at(s, i) {
        lemma_first_set_bounds(s, i + 1);
    }
}

/// The first set bit at or after `i` is no later than any set bit `p >= i`.
pub proof fn lemma_first_set_le(s: Seq<u8>, i: int, p: int)
    requires
        0 <= i <= p < s.len() * 8,
        bit_at(s, p),
    ensures
        first_set_from(s, i) <= p,
    decreases p - i,
{
    if i < p && !bit_at(s, i) {
        lemma_first_set_le(s, i + 1, p);
    }
}

/// XOR with a fixed identifier is one to one.
pub proof fn lemma_xor_injective(t: Seq<u8>, a: Seq<u8>, b: Seq<u8>)
    requires
        t.len() == a.len(),
        a.len() == b.len(),
        xor_seq(t, a) == xor_seq(t, b),
    ensures
        a == b,
{
    assert forall|i: int| 0 <= i < a.len() implies a[i] == b[i] by {
        let ti = t[i];
        let ai = a[i];
        let bi = b[i];
        assert(xor_seq(t, a)[i] == ti ^ ai);
        assert(xor_seq(t, b)[i] == ti ^ bi);
        assert(ti ^ ai == ti ^ bi ==> ai == bi) by (bit_vector);
    }
    assert(a =~= b);
}

/// Distinct identifiers lie at a distance between 1 and 160.
pub proof fn lemma_distance_positive(a: Seq<u8>, b: Seq<u8>)
    requires
        a.len() == ID_LENGTH,
        b.len() == ID_LENGTH,
        a != b,
    ensures
        1 <= spec_distance(a, b) <= ID_BITS,
{
    let x = xor_seq(a, b);
    lemma_first_set_bounds(x, 0);
    let j = choose|j: int| 0 <= j < ID_LENGTH && a[j] != b[j];
    assert(exists|j: int| 0 <= j < ID_LENGTH && a[j] != b[j]) by {
        if forall|j: int| 0 <= j < ID_LENGTH ==> a[j] == b[j] {
            assert(a =~= b);
        }
    }
    let (aj, bj) = (a[j], b[j]);
    let v = aj ^ bj;
    assert(v != 0) by (bit_vector)
        requires
            aj != bj,
            v == aj ^ bj,
    ;
    lemma_byte_leading_zeros(v);
    let k = v.leading_zeros() as int;
    let p = 8 * j + k;
    assert(p / 8 == j && p % 8 == k) by (nonlinear_arith)
        requires
            p == 8 * j + k,
            0 <= k < 8,
    ;
    assert(bit_at(x, p));
    lemma_first_set_le(x, 0, p);
}

/// The first set bit of a byte string is `p` when all bits before it are clear.
pub proof fn lemma_first_set_at(s: Seq<u8>, p: int)
    requires
        0 <= p <= s.len() * 8,
        forall|k: int| 0 <= k < p ==> !bit_at(s, k),
        p < s.len() * 8 ==> bit_at(s, p),
    ensures
        leading_zero_bits(s) == p,
{
    lemma_first_set_skip(s, 0, p);
}

pub proof fn lemma_byte_leading_zeros(b: u8)
    ensures
        forall|k: int| 0 <= k < b.leading_zeros() ==> !byte_bit(b, k),
        b.leading_zeros() < 8 ==> byte_bit(b, b.leading_zeros() as int),
        b.leading_zeros() <= 8,
        b == 0 <==> b.leading_zeros() == 8,
{
    vstd::std_specs::bits::axiom_u8_leading_zeros(b);
    let z = b.leading_zeros();
    assert forall|k: int| 0 <= k < z implies !byte_bit(b, k) by {
        let j = (7 - k) as u8;
        assert(8 - z <= j < 8);
        assert((b >> j) & 1u8 == 0u8);
    }
    if z < 8 {
        let j = (7 - z) as u8;
        assert((b >> j) & 1u8 != 0u8);
        assert(((b >> j) & 1u8) != 0u8 ==> ((b >> j) & 1u8) == 1u8) by (bit_vector);
    }
}


/// Bit `i` of the identifier at XOR distance `d` from `s`: the bits above position
/// `160 - d` are those of `s`, that bit is flipped and every bit below it is set.
pub open spec fn id_at_distance_bit(s: Seq<u8>, d: int, i: int) -> bool {
    if i < ID_BITS - d {
        bit_at(s, i)
    } else if i == ID_BITS - d {
        !bit_at(s, i)
    } else {
        true
    }
}

/// `r` is the identifier at XOR distance `d` from `s`, bit for bit.
pub open spec fn is_id_at_distance(s: Seq<u8>, d: int, r: Seq<u8>) -> bool {
    &&& r.len() == ID_LENGTH
    &&& forall|i: int| 0 <= i < ID_BITS ==> bit_at(r, i) == id_at_distance_bit(s, d, i)
}

/// The hexadecimal digits, lower case.
pub open spec fn hex_digits() -> Seq<char> {
    seq!['0', '1', '2', '3', '4', '5', '6', '7', '8', '9', 'a', 'b', 'c', 'd', 'e', 'f']
}

/// Two lower-case hexadecimal digits per byte, high nibble first.
pub open spec fn hex_of(s: Seq<u8>) -> Seq<char> {
    Seq::new(
        2 * s.len(),
        |i: int|
            if i % 2 == 0 {
                hex_digits()[(s[i / 2] / 16) as int]
            } else {
                hex_digits()[(s[i / 2] % 16) as int]
            },
    )
}

/// Eight binary digits per byte, most significant bit first.
pub open spec fn binary_of(s: Seq<u8>) -> Seq<char> {
    Seq::new(
        8 * s.len(),
        |i: int|
            if bit_at(s, i) {
                '1'
            } else {
                '0'
            },
    )
}

/// The byte of position `o` of an identifier at a given distance: the top `o` bits are
/// kept, bit `o` is flipped and the bits below it are set.
spec fn corner_byte(b: u8, o: u8) -> u8 {
    (b & !(0xFFu8 >> o)) | ((b ^ (0x80u8 >> o)) & (0x80u8 >> o)) | (0x7Fu8 >> o)
}

proof fn lemma_corner_byte(b: u8, o: u8, k: int)
    requires
        o < 8,
        0 <= k < 8,
    ensures
        byte_bit(corner_byte(b, o), k) == if k < o {
            byte_bit(b, k)
        } else if k == o {
            !byte_bit(b, k)
        } else {
            true
        },
{
    let j = (7 - k) as u8;
    let c = corner_byte(b, o);
    assert(c == (b & !(0xFFu8 >> o)) | ((b ^ (0x80u8 >> o)) & (0x80u8 >> o)) | (0x7Fu8 >> o));
    if k < o {
        assert((c >> j) & 1u8 == (b >> j) & 1u8) by (bit_vector)
            requires
                c == (b & !(0xFFu8 >> o)) | ((b ^ (0x80u8 >> o)) & (0x80u8 >> o)) | (0x7Fu8 >> o),
                o < 8u8,
                j < 8u8,
                7u8 - j < o,
        ;
    } else if k == o {
        assert(((c >> j) & 1u8 == 1u8) == ((b >> j) & 1u8 != 1u8)) by (bit_vector)
            requires
                c == (b & !(0xFFu8 >> o)) | ((b ^ (0x80u8 >> o)) & (0x80u8 >> o)) | (0x7Fu8 >> o),
                o < 8u8,
                j < 8u8,
                7u8 - j == o,
        ;
    } else {
        assert((c >> j) & 1u8 == 1u8) by (bit_vector)
            requires
                c == (b & !(0xFFu8 >> o)) | ((b ^ (0x80u8 >> o)) & (0x80u8 >> o)) | (0x7Fu8 >> o),
                o < 8u8,
                j < 8u8,
                7u8 - j > o,
        ;
    }
}

proof fn lemma_full_byte_bits(k: int)
    requires
        0 <= k < 8,
    ensures
        byte_bit(0xFFu8, k),
{
    let j = (7 - k) as u8;
    assert((0xFFu8 >> j) & 1u8 == 1u8) by (bit_vector)
        requires
            j < 8u8,
    ;
}

/// The identifier at XOR distance `d` from `s` lies at distance exactly `d` from it.
pub proof fn lemma_id_at_distance(s: Seq<u8>, d: int, r: Seq<u8>)
    requires
        s.len() == ID_LENGTH,
        1 <= d <= ID_BITS,
        is_id_at_distance(s, d, r),
    ensures
        spec_distance(r, s) == d,
{
    let x = xor_seq(r, s);
    let p = ID_BITS - d;
    assert forall|k: int| 0 <= k < p implies !bit_at(x, k) by {
        lemma_xor_bit(r, s, k);
    }
    lemma_xor_bit(r, s, p);
    lemma_first_set_at(x, p);
}

/// Generating an identifier at distance `d` and measuring its distance gives `d` back.
pub proof fn lemma_generated_distance(u: UID, d: int, r: UID)
    requires
        1 <= d <= ID_BITS,
        is_id_at_distance(u@, d, r@),
    ensures
        spec_distance(r@, u@) == d,
{
    lemma_id_at_distance(u@, d, r@);
}

fn hex_digit(n: u8) -> (r: &'static str)
    requires
        n < 16,
    ensures
        r@ == seq![hex_digits()[n as int]],
{
    match n {
        0u8 => {
            proof {
                reveal_strlit("0");
            }
            "0"
        },
        1u8 => {
            proof {
                reveal_strlit("1");
            }
            "1"
        },
        2u8 => {
            proof {
                reveal_strlit("2");
            }
            "2"
        },
        3u8 => {
            proof {
                reveal_strlit("3");
            }
            "3"
        },
        4u8 => {
            proof {
                reveal_strlit("4");
            }
            "4"
        },
        5u8 => {
            proof {
                reveal_strlit("5");
            }
            "5"
        },
        6u8 => {
            proof {
                reveal_strlit("6");
            }
            "6"
        },
        7u8 => {
            proof {
                reveal_strlit("7");
            }
            "7"
        },
        8u8 => {
            proof {
                reveal_strlit("8");
            }
            "8"
        },
        9u8 => {
            proof {
                reveal_strlit("9");
            }
            "9"
        },
        10u8 => {
            proof {
                reveal_strlit("a");
            }
            "a"
        },
        11u8 => {
            proof {
                reveal_strlit("b");
            }
            "b"
        },
        12u8 => {
            proof {
                reveal_strlit("c");
            }
            "c"
        },
        13u8 => {
            proof {
                reveal_strlit("d");
            }
            "d"
        },
        14u8 => {
            proof {
                reveal_strlit("e");
            }
            "e"
        },
        _ => {
            proof {
                reveal_strlit("f");
            }
            "f"
        },
    }
}

impl UID {
    /// XOR of two identifiers.
    pub fn xor(&self, k: &UID) -> (r: UID)
        ensures
            r@ == xor_seq(self@, k@),
    {
        let mut out: [u8; 20] = [0u8; 20];
        let mut i: usize = 0;
        while i < ID_LENGTH
            invariant
                i <= ID_LENGTH,
                out@.len() == 20,
                forall|j: int| 0 <= j < i ==> out@[j] == self@[j] ^ k@[j],
            decreases ID_LENGTH - i,
        {
            out[i] = self.bid[i] ^ k.bid[i];
            i = i + 1;
        }
        let r = UID { bid: out };
        assert(r@ =~= xor_seq(self@, k@));
        r
    }

    /// Number of leading zero bits of this identifier.
    pub fn first_set_bit_index(&self) -> (r: usize)
        ensures
            r as int == leading_zero_bits(self@),
            r <= ID_BITS,
    {
        let ghost s = self@;
        let mut prefix: usize = 0;
        let mut i: usize = 0;
        while i < ID_LENGTH
            invariant
                i <= ID_LENGTH,
                s.len() == 20,
                s == self@,
                prefix == 8 * i,
                forall|k: int| 0 <= k < prefix ==> !bit_at(s, k),
            decreases ID_LENGTH - i,
        {
            let b = self.bid[i];
            proof {
                lemma_byte_leading_zeros(b);
            }
            if b == 0 {
                assert forall|k: int| 0 <= k < prefix + 8 implies !bit_at(s, k) by {
                    if k >= prefix {
                        assert(k / 8 == i as int && 0 <= k % 8 < 8) by (nonlinear_arith)
                            requires
                                prefix == 8 * i,
                                prefix <= k < prefix + 8,
                        ;
                        lemma_zero_byte_bits(b, k % 8);
                    }
                }
                prefix = prefix + 8;
            } else {
                let z = b.leading_zeros() as usize;
                assert forall|k: int| 0 <= k < prefix + z implies !bit_at(s, k) by {
                    if k >= prefix {
                        assert(k / 8 == i as int && k % 8 == k - prefix) by (nonlinear_arith)
                            requires
                                prefix == 8 * i,
                                prefix <= k < prefix + 8,
                        ;
                    }
                }
                let p = prefix + z;
                assert(p / 8 == i as int && p % 8 == z) by (nonlinear_arith)
                    requires
                        prefix == 8 * i,
                        p == prefix + z,
                        z < 8,
                ;
                proof {
                    lemma_first_set_at(s, p as int);
                }
                return p;
            }
            i = i + 1;
        }
        proof {
            lemma_first_set_at(s, prefix as int);
        }
        prefix
    }

    /// XOR distance to `k`: 160 minus the length of the common prefix, so 0 means equal.
    pub fn distance(&self, k: &UID) -> (r: usize)
        ensures
            r as int == spec_distance(self@, k@),
            r <= ID_BITS,
    {
        ID_BITS - self.xor(k).first_set_bit_index()
    }

    /// An identifier at XOR distance `distance` from this one: the top `160 - distance`
    /// bits are kept, the next bit is flipped and the remaining bits are set.
    pub fn generate_node_id_by_distance(&self, distance: usize) -> (r: UID)
        requires
            1 <= distance <= ID_BITS,
        ensures
            is_id_at_distance(self@, distance as int, r@),
            spec_distance(r@, self@) == distance,
    {
        let p: usize = ID_BITS - distance;
        let q: usize = p / 8;
        let o: u8 = (p % 8) as u8;
        let mut out: [u8; 20] = [0u8; 20];
        let mut j: usize = 0;
        while j < ID_LENGTH
            invariant
                j <= ID_LENGTH,
                q < ID_LENGTH,
                q == p / 8,
                o == p % 8,
                p == ID_BITS - distance,
                out@.len() == 20,
                forall|jj: int|
                    0 <= jj < j ==> #[trigger] out@[jj] == if jj < q {
                        self@[jj]
                    } else if jj == q {
                        corner_byte(self@[jj], o)
                    } else {
                        0xFFu8
                    },
            decreases ID_LENGTH - j,
        {
            if j < q {
                out[j] = self.bid[j];
            } else if j == q {
                out[j] = (self.bid[j] & !(0xFFu8 >> o)) | ((self.bid[j] ^ (0x80u8 >> o)) & (0x80u8
                    >> o)) | (0x7Fu8 >> o);
            } else {
                out[j] = 0xFF;
            }
            j = j + 1;
        }
        let r = UID { bid: out };
        assert forall|i: int| 0 <= i < ID_BITS implies bit_at(r@, i) == id_at_distance_bit(
            self@,
            distance as int,
            i,
        ) by {
            let jj = i / 8;
            let k = i % 8;
            assert(0 <= jj < 20 && 0 <= k < 8 && i == 8 * jj + k) by (nonlinear_arith)
                requires
                    0 <= i < 160,
                    jj == i / 8,
                    k == i % 8,
            ;
            assert(p == 8 * q + o) by (nonlinear_arith)
                requires
                    q == p / 8,
                    o == p % 8,
                    p >= 0,
            ;
            if jj < q {
                assert(i < p);
            } else if jj == q {
                lemma_corner_byte(self@[jj], o, k);
            } else {
                assert(i > p);
                lemma_full_byte_bits(k);
            }
        }
        proof {
            lemma_id_at_distance(self@, distance as int, r@);
        }
        r
    }

    /// The raw bytes of this identifier.
    pub fn bytes(&self) -> (r: [u8; 20])
        ensures
            r@ == self@,
    {
        self.bid
    }

    /// The identifier as 160 binary digits.
    pub fn binary(&self) -> (r: String)
        ensures
            r@ == binary_of(self@),
    {
        let mut out = String::new();
        let mut i: usize = 0;
        while i < ID_BITS
            invariant
                i <= ID_BITS,
                self@.len() == 20,
                out@ =~= binary_of(self@).take(i as int),
            decreases ID_BITS - i,
        {
            let b = self.bid[i / 8];
            let k = (i % 8) as u8;
            let bit = (b >> (7 - k)) & 1u8;
            let ghost before = out@;
            if bit == 1 {
                proof {
                    reveal_strlit("1");
                }
                out.append("1");
            } else {
                proof {
                    reveal_strlit("0");
                }
                out.append("0");
            }
            assert(out@ =~= binary_of(self@).take(i + 1));
            i = i + 1;
        }
        assert(binary_of(self@).take(160) =~= binary_of(self@));
        out
    }

    /// The identifier as 40 lower-case hexadecimal digits.
    pub fn hex(&self) -> (r: String)
        ensures
            r@ == hex_of(self@),
    {
        let mut out = String::new();
        let mut i: usize = 0;
        while i < ID_LENGTH
            invariant
                i <= ID_LENGTH,
                self@.len() == 20,
                out@ =~= hex_of(self@).take(2 * i),
            decreases ID_LENGTH - i,
        {
            let b = self.bid[i];
            out.append(hex_digit(b / 16));
            out.append(hex_digit(b % 16));
            assert(out@ =~= hex_of(self@).take(2 * i + 2));
            i = i + 1;
        }
        assert(hex_of(self@).take(40) =~= hex_of(self@));
        out
    }
}

impl PartialEq for UID {
    fn eq(&self, other: &UID) -> (r: bool)
        ensures
            r == (self@ == other@),
    {
        let mut i: usize = 0;
        while i < ID_LENGTH
            invariant
                i <= ID_LENGTH,
                self@.len() == 20,
                other@.len() == 20,
                forall|j: int| 0 <= j < i ==> self@[j] == other@[j],
            decreases ID_LENGTH - i,
        {
            if self.bid[i] != other.bid[i] {
                return false;
            }
            i = i + 1;
        }
        assert(self@ =~= other@);
        true
    }
}

impl vstd::std_specs::cmp::PartialEqSpecImpl for UID {
    open spec fn obeys_eq_spec() -> bool {
        true
    }

    open spec fn eq_spec(&self, other: &UID) -> bool {
        self@ == other@
    }
}

impl Eq for UID {

}

/// Value of an ASCII hexadecimal digit, either case.
pub open spec fn hex_value(c: u8) -> Option<u8> {
    if 48 <= c <= 57 {
        Some((c - 48) as u8)
    } else if 97 <= c <= 102 {
        Some((c - 87) as u8)
    } else if 65 <= c <= 70 {
        Some((c - 55) as u8)
    } else {
        None
    }
}

/// `s` is 40 hexadecimal digits spelling the bytes `b`, high nibble first.
pub open spec fn spells_hex(s: Seq<u8>, b: Seq<u8>) -> bool {
    &&& s.len() == 2 * ID_LENGTH
    &&& b.len() == ID_LENGTH
    &&& forall|i: int|
        0 <= i < ID_LENGTH ==> hex_value(#[trigger] s[2 * i]) is Some && hex_value(s[2 * i + 1]) is Some
            && b[i] == hex_value(s[2 * i])->0 * 16 + hex_value(s[2 * i + 1])->0
}

fn digit_value(c: u8) -> (r: Option<u8>)
    ensures
        r == hex_value(c),
{
    if 48 <= c && c <= 57 {
        Some(c - 48)
    } else if 97 <= c && c <= 102 {
        Some(c - 87)
    } else if 65 <= c && c <= 70 {
        Some(c - 55)
    } else {
        None
    }
}

impl UID {
    /// The identifier spelled by 40 hexadecimal digits (either case); any other text
    /// gives `None`.
    pub fn from_hex(key: &str) -> (r: Option<UID>)
        ensures
            r matches Some(u) ==> spells_hex(key.spec_bytes(), u@),
            r is None ==> forall|b: Seq<u8>| !spells_hex(key.spec_bytes(), b),
    {
        let s = key.as_bytes();
        assert(s@ == key.spec_bytes());
        if s.len() != 2 * ID_LENGTH {
            return None;
        }
        let mut bid: [u8; 20] = [0u8; 20];
        let mut i: usize = 0;
        while i < ID_LENGTH
            invariant
                i <= ID_LENGTH,
                s@.len() == 2 * ID_LENGTH,
                s@ == key.spec_bytes(),
                bid@.len() == 20,
                forall|k: int|
                    0 <= k < i ==> hex_value(#[trigger] s@[2 * k]) is Some && hex_value(s@[2 * k + 1]) is Some
                        && bid@[k] == hex_value(s@[2 * k])->0 * 16 + hex_value(s@[2 * k + 1])->0,
            decreases ID_LENGTH - i,
        {
            let hi = match digit_value(s[2 * i]) {
                Some(v) => v,
                None => {
                    proof {
                        assert forall|b: Seq<u8>| !spells_hex(s@, b) by {
                            if spells_hex(s@, b) {
                                let k = i as int;
                                assert(hex_value(s@[2 * k]) is Some);
                            }
                        }
                    }
                    return None;
                },
            };
            let lo = match digit_value(s[2 * i + 1]) {
                Some(v) => v,
                None => {
                    proof {
                        assert forall|b: Seq<u8>| !spells_hex(s@, b) by {
                            if spells_hex(s@, b) {
                                let k = i as int;
                                assert(hex_value(s@[2 * k]) is Some && hex_value(s@[2 * k + 1]) is Some);
                            }
                        }
                    }
                    return None;
                },
            };
            bid[i] = hi * 16 + lo;
            i = i + 1;
        }
        Some(UID { bid })
    }

    /// The identifier as three groups of lower-case hexadecimal digits: the first three
    /// bytes, the next sixteen and the last one, separated by spaces.
    pub fn display(&self) -> (r: String)
        ensures
            r@ == hex_of(self@.subrange(0, 3)) + seq![' '] + hex_of(self@.subrange(3, 19)) + seq![' ']
                + hex_of(self@.subrange(19, 20)),
    {
        let mut out = String::new();
        let mut i: usize = 0;
        let ghost full = self@;
        while i < ID_LENGTH
            invariant
                i <= ID_LENGTH,
                full == self@,
                full.len() == 20,
                out@ == if i <= 3 {
                    hex_of(full.subrange(0, i as int))
                } else if i <= 19 {
                    hex_of(full.subrange(0, 3)) + seq![' '] + hex_of(full.subrange(3, i as int))
                } else {
                    hex_of(full.subrange(0, 3)) + seq![' '] + hex_of(full.subrange(3, 19)) + seq![' '] + hex_of(full.subrange(19, i as int))
                },
            decreases ID_LENGTH - i,
        {
            if i == 3 || i == 19 {
                proof {
                    reveal_strlit(" ");
                }
                out.append(" ");
                assert(hex_of(full.subrange(i as int, i as int)) =~= Seq::<char>::empty());
            }
            let ghost before = out@;
            let b = self.bid[i];
            out.append(hex_digit(b / 16));
            out.append(hex_digit(b % 16));
            proof {
                let lo: int = if i < 3 { 0 } else if i < 19 { 3 } else { 19 };
                assert(hex_of(full.subrange(lo, i + 1)) =~= hex_of(full.subrange(lo, i as int)) + seq![hex_digits()[(b / 16) as int], hex_digits()[(b % 16) as int]]);
            }
            i = i + 1;
        }
        out
    }
}

impl From<[u8; 20]> for UID {
    fn from(bid: [u8; 20]) -> (r: UID)
        ensures
            r.bid == bid,
    {
        UID { bid }
    }
}

impl vstd::std_specs::convert::FromSpecImpl<[u8; 20]> for UID {
    open spec fn obeys_from_spec() -> bool {
        true
    }

    open spec fn from_spec(bid: [u8; 20]) -> UID {
        UID { bid }
    }
}


} // verus!
