use vstd::prelude::*;

verus! {

/// Length of an IPv4 address in bytes.
pub const IPV4_LENGTH: usize = 4;

/// Length of an IPv6 address in bytes.
pub const IPV6_LENGTH: usize = 16;

/// The two address families.
#[derive(Copy, Clone, Debug, PartialEq, Eq, Structural, Hash)]
pub enum AddressTypes {
    Ipv4,
    Ipv6,
}

/// An IP address, as its octets in network order.
#[derive(Copy, Clone, Debug, Hash)]
pub enum IpAddress {
    V4([u8; 4]),
    V6([u8; 16]),
}

/// An IP address with a port.
#[derive(Copy, Clone, Debug, Hash)]
pub struct SocketAddress {
    pub ip: IpAddress,
    pub port: u16,
}

impl IpAddress {
    /// The octets of the address.
    pub open spec fn view(&self) -> Seq<u8> {
        match self {
            IpAddress::V4(b) => b@,
            IpAddress::V6(b) => b@,
        }
    }

    pub open spec fn family(&self) -> AddressTypes {
        match self {
            IpAddress::V4(_) => AddressTypes::Ipv4,
            IpAddress::V6(_) => AddressTypes::Ipv6,
        }
    }

    /// The address family.
    pub fn address_type(&self) -> (r: AddressTypes)
        ensures
            r == self.family(),
    {
        match self {
            IpAddress::V4(_) => AddressTypes::Ipv4,
            IpAddress::V6(_) => AddressTypes::Ipv6,
        }
    }

    /// The octets of the address.
    pub fn octets(&self) -> (r: Vec<u8>)
        ensures
            r@ == self@,
    {
        match self {
            IpAddress::V4(b) => copy_bytes(b),
            IpAddress::V6(b) => copy_bytes(b),
        }
    }
}

impl PartialEq for IpAddress {
    fn eq(&self, other: &IpAddress) -> (r: bool)
        ensures
            r == (*self == *other),
    {
        match (self, other) {
            (IpAddress::V4(a), IpAddress::V4(b)) => {
                let e = bytes_equal(a, b);
                proof {
                    if e {
                        assert(a@ =~= b@);
                        assert(*a == *b);
                    }
                }
                e
            },
            (IpAddress::V6(a), IpAddress::V6(b)) => {
                let e = bytes_equal(a, b);
                proof {
                    if e {
                        assert(a@ =~= b@);
                        assert(*a == *b);
                    }
                }
                e
            },
            _ => false,
        }
    }
}

impl vstd::std_specs::cmp::PartialEqSpecImpl for IpAddress {
    open spec fn obeys_eq_spec() -> bool {
        true
    }

    open spec fn eq_spec(&self, other: &IpAddress) -> bool {
        *self == *other
    }
}

impl Eq for IpAddress {

}

impl PartialEq for SocketAddress {
    fn eq(&self, other: &SocketAddress) -> (r: bool)
        ensures
            r == (*self == *other),
    {
        self.ip == other.ip && self.port == other.port
    }
}

impl vstd::std_specs::cmp::PartialEqSpecImpl for SocketAddress {
    open spec fn obeys_eq_spec() -> bool {
        true
    }

    open spec fn eq_spec(&self, other: &SocketAddress) -> bool {
        *self == *other
    }
}

impl Eq for SocketAddress {

}

/// Whether two byte strings are equal.
pub fn bytes_equal(a: &[u8], b: &[u8]) -> (r: bool)
    ensures
        r == (a@ == b@),
{
    if a.len() != b.len() {
        return false;
    }
    let mut i: usize = 0;
    while i < a.len()
        invariant
            i <= a@.len(),
            a@.len() == b@.len(),
            forall|j: int| 0 <= j < i ==> a@[j] == b@[j],
        decreases a@.len() - i,
    {
        if a[i] != b[i] {
            return false;
        }
        i = i + 1;
    }
    assert(a@ =~= b@);
    true
}

/// A copy of a byte string.
pub fn copy_bytes(a: &[u8]) -> (r: Vec<u8>)
    ensures
        r@ == a@,
{
    let mut out: Vec<u8> = Vec::new();
    let mut i: usize = 0;
    while i < a.len()
        invariant
            i <= a@.len(),
            out@ =~= a@.take(i as int),
        decreases a@.len() - i,
    {
        out.push(a[i]);
        i = i + 1;
    }
    assert(a@.take(a@.len() as int) =~= a@);
    out
}

/// Whether an IPv4 address is routable on the public internet: not the unspecified
/// network, loopback, link-local, private (site-local) or multicast.
pub open spec fn v4_global_unicast(b: Seq<u8>) -> bool {
    &&& b[0] != 0
    &&& b[0] != 127
    &&& b[0] != 10
    &&& !(b[0] == 169 && b[1] == 254)
    &&& !(b[0] == 172 && 16 <= b[1] < 32)
    &&& !(b[0] == 192 && b[1] == 168)
    &&& !(224 <= b[0] < 240)
}

/// Whether an IPv6 address is routable on the public internet: not unspecified,
/// loopback, link-local, site-local, unique-local or multicast.
pub open spec fn v6_global_unicast(b: Seq<u8>) -> bool {
    &&& !(forall|i: int| 0 <= i < 15 ==> b[i] == 0)
    &&& b[0] != 0xFF
    &&& !(b[0] == 0xFE && b[1] >= 0x80)
    &&& !(b[0] == 0xFC || b[0] == 0xFD)
}

pub open spec fn spec_global_unicast(ip: IpAddress) -> bool {
    match ip {
        IpAddress::V4(b) => v4_global_unicast(b@),
        IpAddress::V6(b) => v6_global_unicast(b@),
    }
}

/// A bogon is an endpoint that is not a global unicast address or has port 0.
pub open spec fn spec_bogon(a: SocketAddress) -> bool {
    a.port == 0 || !spec_global_unicast(a.ip)
}

/// Whether an address is routable on the public internet.
pub fn is_global_unicast(ip: &IpAddress) -> (r: bool)
    ensures
        r == spec_global_unicast(*ip),
{
    match ip {
        IpAddress::V4(b) => {
            !(b[0] == 0 || b[0] == 127 || b[0] == 10 || (b[0] == 169 && b[1] == 254) || (b[0]
                == 172 && 16 <= b[1] && b[1] < 32) || (b[0] == 192 && b[1] == 168) || (224 <= b[0]
                && b[0] < 240))
        },
        IpAddress::V6(b) => {
            let mut all_zero = true;
            let mut i: usize = 0;
            while i < 15
                invariant
                    i <= 15,
                    b@.len() == 16,
                    all_zero == (forall|j: int| 0 <= j < i ==> b@[j] == 0),
                decreases 15 - i,
            {
                if b[i] != 0 {
                    all_zero = false;
                }
                i = i + 1;
            }
            !(all_zero || b[0] == 0xFF || (b[0] == 0xFE && b[1] >= 0x80) || b[0] == 0xFC || b[0]
                == 0xFD)
        },
    }
}

/// Whether an endpoint is a bogon.
pub fn is_bogon(a: &SocketAddress) -> (r: bool)
    ensures
        r == spec_bogon(*a),
{
    a.port == 0 || !is_global_unicast(&a.ip)
}

/// The two big-endian bytes of a port.
pub open spec fn port_bytes(p: u16) -> Seq<u8> {
    seq![(p / 256) as u8, (p % 256) as u8]
}

/// Compact form of an endpoint: its octets followed by the port, big-endian.
pub open spec fn spec_pack_address(a: SocketAddress) -> Seq<u8> {
    a.ip@ + port_bytes(a.port)
}

/// The compact form of an endpoint.
pub fn pack_address(a: &SocketAddress) -> (r: Vec<u8>)
    ensures
        r@ == spec_pack_address(*a),
{
    let mut out = a.ip.octets();
    out.push((a.port / 256) as u8);
    out.push((a.port % 256) as u8);
    assert(out@ =~= spec_pack_address(*a));
    out
}

/// `a` is the endpoint whose compact form starts at offset `off` of `b`: 4 octets
/// when `v6` is false, 16 when it is true, then the port, big-endian.
pub open spec fn reads_address(b: Seq<u8>, off: int, v6: bool, a: SocketAddress) -> bool {
    let n: int = if v6 {
        16
    } else {
        4
    };
    &&& a.ip.family() == (if v6 {
        AddressTypes::Ipv6
    } else {
        AddressTypes::Ipv4
    })
    &&& a.ip@ == b.subrange(off, off + n)
    &&& a.port as int == b[off + n] as int * 256 + b[off + n + 1] as int
}

/// Reads the endpoint whose compact form starts at offset `off` of `b`.
pub fn read_address(b: &[u8], off: usize, v6: bool) -> (r: SocketAddress)
    requires
        off + (if v6 {
            18int
        } else {
            6int
        }) <= b@.len(),
    ensures
        reads_address(b@, off as int, v6, r),
{
    let len = b.len();
    if v6 {
        let mut ip: [u8; 16] = [0u8; 16];
        let mut i: usize = 0;
        while i < 16
            invariant
                i <= 16,
                off + 18 <= b@.len(),
                len == b@.len(),
                ip@.len() == 16,
                forall|j: int| 0 <= j < i ==> ip@[j] == b@[off + j],
            decreases 16 - i,
        {
            ip[i] = b[off + i];
            i = i + 1;
        }
        let port = (b[off + 16] as u16) * 256 + b[off + 17] as u16;
        let r = SocketAddress { ip: IpAddress::V6(ip), port };
        assert(r.ip@ =~= b@.subrange(off as int, off + 16));
        r
    } else {
        let mut ip: [u8; 4] = [0u8; 4];
        let mut i: usize = 0;
        while i < 4
            invariant
                i <= 4,
                off + 6 <= b@.len(),
                len == b@.len(),
                ip@.len() == 4,
                forall|j: int| 0 <= j < i ==> ip@[j] == b@[off + j],
            decreases 4 - i,
        {
            ip[i] = b[off + i];
            i = i + 1;
        }
        let port = (b[off + 4] as u16) * 256 + b[off + 5] as u16;
        let r = SocketAddress { ip: IpAddress::V4(ip), port };
        assert(r.ip@ =~= b@.subrange(off as int, off + 4));
        r
    }
}

/// Reads an endpoint from its compact form: 6 bytes for IPv4, 18 for IPv6; any other
/// length gives `None`.
pub fn unpack_address(b: &[u8]) -> (r: Option<SocketAddress>)
    ensures
        b@.len() != 6 && b@.len() != 18 ==> r is None,
        b@.len() == 6 ==> r is Some && reads_address(b@, 0, false, r->0),
        b@.len() == 18 ==> r is Some && reads_address(b@, 0, true, r->0),
{
    if b.len() == 6 {
        Some(read_address(b, 0, false))
    } else if b.len() == 18 {
        Some(read_address(b, 0, true))
    } else {
        None
    }
}

/// Reading back the compact form of an endpoint gives the same endpoint.
pub proof fn lemma_address_round_trip(a: SocketAddress, r: SocketAddress)
    requires
        reads_address(spec_pack_address(a), 0, a.ip.family() == AddressTypes::Ipv6, r),
    ensures
        r == a,
{
    let b = spec_pack_address(a);
    let n = a.ip@.len();
    assert(b.subrange(0, n as int) =~= a.ip@);
    match (r.ip, a.ip) {
        (IpAddress::V4(x), IpAddress::V4(y)) => {
            assert(x@ =~= y@);
            assert(x == y);
        },
        (IpAddress::V6(x), IpAddress::V6(y)) => {
            assert(x@ =~= y@);
            assert(x == y);
        },
        _ => {},
    }
}

} // verus!
