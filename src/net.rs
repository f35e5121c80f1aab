//! IP addresses and prefixes as plain integers.

use vstd::prelude::*;

verus! {

/// An IP address: an IPv4 address as its 32-bit value, an IPv6 address as its
/// 128-bit value (most significant bit first, as on the wire).
#[derive(Clone, Copy, Debug, PartialEq, Eq, Structural, Hash)]
pub enum IpAddress {
    V4(u32),
    V6(u128),
}

impl IpAddress {
    /// Number of bits in an address of this family.
    pub open spec fn width(self) -> nat {
        match self {
            IpAddress::V4(_) => 32,
            IpAddress::V6(_) => 128,
        }
    }

    pub fn bit_width(&self) -> (r: u8)
        ensures
            r as nat == self.width(),
    {
        match self {
            IpAddress::V4(_) => 32,
            IpAddress::V6(_) => 128,
        }
    }
}

/// An address block: an address and the number of leading bits that are fixed.
#[derive(Clone, Copy, Debug, PartialEq, Eq, Structural, Hash)]
pub struct Prefix {
    pub addr: IpAddress,
    pub len: u8,
}

impl Prefix {
    /// The mask length fits the address family.
    pub open spec fn wf(self) -> bool {
        self.len as nat <= self.addr.width()
    }

    /// `ip` is of the same family and agrees with the block on its leading `len` bits.
    pub open spec fn covers(self, ip: IpAddress) -> bool {
        match (self.addr, ip) {
            (IpAddress::V4(p), IpAddress::V4(x)) => self.len == 0 || (self.len <= 32 && p >> ((
            32 - self.len) as u32) == x >> ((32 - self.len) as u32)),
            (IpAddress::V6(p), IpAddress::V6(x)) => self.len == 0 || (self.len <= 128 && p >> ((
            128 - self.len) as u32) == x >> ((128 - self.len) as u32)),
            _ => false,
        }
    }

    /// Whether `ip` lies inside this block.
    pub fn contains(&self, ip: IpAddress) -> (r: bool)
        ensures
            r == self.covers(ip),
    {
        match (self.addr, ip) {
            (IpAddress::V4(p), IpAddress::V4(x)) => {
                if self.len == 0 {
                    true
                } else if self.len > 32 {
                    false
                } else {
                    let shift: u32 = (32 - self.len) as u32;
                    p >> shift == x >> shift
                }
            },
            (IpAddress::V6(p), IpAddress::V6(x)) => {
                if self.len == 0 {
                    true
                } else if self.len > 128 {
                    false
                } else {
                    let shift: u32 = (128 - self.len) as u32;
                    p >> shift == x >> shift
                }
            },
            _ => false,
        }
    }
}

} // verus!
