use vstd::prelude::*;

verus! {

/// A fixed-width (6-byte, MAC-style) hardware address.
///
/// Interfaces rendezvous on this value during link establishment: a node asks
/// for a link to a peer by address, and the store resolves it by equality.
/// The six octets are stored as plain fields so that `==` in contracts means
/// exactly octet-for-octet equality.
#[derive(Clone, Copy, PartialEq, Eq, Structural, Debug, Hash)]
pub struct HwAddr {
    pub o0: u8,
    pub o1: u8,
    pub o2: u8,
    pub o3: u8,
    pub o4: u8,
    pub o5: u8,
}

impl HwAddr {
    /// Build an address from its six octets, most significant first.
    pub fn new(o0: u8, o1: u8, o2: u8, o3: u8, o4: u8, o5: u8) -> (r: HwAddr)
        ensures
            r == (HwAddr { o0, o1, o2, o3, o4, o5 }),
    {
        HwAddr { o0, o1, o2, o3, o4, o5 }
    }
}

} // verus!
