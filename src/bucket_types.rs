use vstd::prelude::*;
use crate::routing::{RoutingTable, MAINLINE_BUCKET_SIZE, KADEMLIA_BUCKET_SIZE};
use crate::net::bytes_equal;
use crate::node::is_derived_uid;
use vstd::string::StringSliceAdditionalSpecFns;

verus! {

/// The two routing-table flavours.
#[derive(Copy, Clone, Debug, PartialEq, Eq, Structural, Hash)]
pub enum BucketTypes {
    MainLine,
    Kademlia,
}

impl BucketTypes {
    pub open spec fn spec_value(&self) -> &'static str {
        match self {
            BucketTypes::MainLine => "MainLine",
            BucketTypes::Kademlia => "Kademlia",
        }
    }

    /// The flavour's name.
    pub fn value(&self) -> (r: &'static str)
        ensures
            r == self.spec_value(),
    {
        match self {
            BucketTypes::MainLine => "MainLine",
            BucketTypes::Kademlia => "Kademlia",
        }
    }

    /// The flavour called `name`, if any.
    pub fn from_string(name: &str) -> (r: Option<BucketTypes>)
        ensures
            r matches Some(t) ==> name.spec_bytes() == t.spec_value().spec_bytes(),
            r is None ==> name.spec_bytes() != BucketTypes::MainLine.spec_value().spec_bytes()
                && name.spec_bytes() != BucketTypes::Kademlia.spec_value().spec_bytes(),
    {
        let b = name.as_bytes();
        if bytes_equal(b, "MainLine".as_bytes()) {
            return Some(BucketTypes::MainLine);
        }
        if bytes_equal(b, "Kademlia".as_bytes()) {
            return Some(BucketTypes::Kademlia);
        }
        None
    }

    /// An empty table of this flavour: Mainline buckets hold 5 nodes and take only
    /// nodes with secure identifiers; Kademlia buckets hold 8 and take any node. Its
    /// identifier is derived from 20 random bytes.
    pub fn routing_table(&self, random: &[u8; 20]) -> (r: RoutingTable)
        ensures
            r.wf(),
            r.all_secure(),
            r.capacity == (match self {
                BucketTypes::MainLine => MAINLINE_BUCKET_SIZE,
                BucketTypes::Kademlia => KADEMLIA_BUCKET_SIZE,
            }),
            r.secure_only == (*self == BucketTypes::MainLine),
            r.origin_pairs@.len() == 0,
            is_derived_uid(r.consensus_external_address, random@, r.uid@),
            forall|d: int, i: int| !r.has_slot(d, i),
    {
        match self {
            BucketTypes::MainLine => RoutingTable::new(MAINLINE_BUCKET_SIZE, true, random),
            BucketTypes::Kademlia => RoutingTable::new(KADEMLIA_BUCKET_SIZE, false, random),
        }
    }
}

} // verus!
