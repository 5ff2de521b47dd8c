//! Network addresses as plain values: IP addresses of both families,
//! address-and-port pairs, address ranges and transport endpoints.

use vstd::prelude::*;
use vstd::arithmetic::power2::pow2;
use vstd::bits::lemma_u32_shr_is_div;
use vstd::bits::lemma_u128_shr_is_div;

verus! {

/// An IP address, held as one big-endian integer per family.
#[derive(Clone, Copy, Debug, PartialEq, Eq, Structural, Hash)]
pub enum IpAddress {
    /// An IPv4 address: `10.0.0.5` is `0x0a00_0005`.
    V4(u32),
    /// An IPv6 address, most significant group first.
    V6(u128),
}

/// An IP address together with a UDP port.
#[derive(Clone, Copy, Debug, PartialEq, Eq, Structural, Hash)]
pub struct InetAddress {
    pub ip: IpAddress,
    pub port: u16,
}

/// An address range in CIDR notation: a network address and the number of
/// leading bits that an address must share with it.
#[derive(Clone, Copy, Debug, PartialEq, Eq, Structural, Hash)]
pub struct Cidr {
    pub network: IpAddress,
    pub bits: u8,
}

/// Where a packet comes from or goes to.
#[derive(Clone, Copy, Debug, PartialEq, Eq, Structural, Hash)]
pub enum Endpoint {
    /// A UDP socket address, the only kind this transport carries.
    IpUdp(InetAddress),
    /// An endpoint of any other kind, known to the overlay core by this tag.
    Other(u64),
}

/// Whether two integers of `width` bits agree on their `bits` leading bits.
pub open spec fn leading_bits_agree(a: nat, b: nat, width: nat, bits: nat) -> bool
    recommends
        bits <= width,
{
    a / pow2((width - bits) as nat) == b / pow2((width - bits) as nat)
}

impl Cidr {
    /// Membership of an address in the range: same family, a prefix length
    /// that fits the family, and agreement on that many leading bits.
    pub open spec fn spec_contains(self, ip: IpAddress) -> bool {
        match (self.network, ip) {
            (IpAddress::V4(n), IpAddress::V4(a)) => self.bits <= 32 && leading_bits_agree(
                a as nat,
                n as nat,
                32,
                self.bits as nat,
            ),
            (IpAddress::V6(n), IpAddress::V6(a)) => self.bits <= 128 && leading_bits_agree(
                a as nat,
                n as nat,
                128,
                self.bits as nat,
            ),
            _ => false,
        }
    }

    /// Whether `ip` lies within this range.
    pub fn contains(&self, ip: &IpAddress) -> (within: bool)
        ensures
            within == self.spec_contains(*ip),
    {
        match (self.network, *ip) {
            (IpAddress::V4(n), IpAddress::V4(a)) => {
                if self.bits > 32 {
                    false
                } else if self.bits == 0 {
                    proof {
                        lemma_whole_width_quotient(a as nat, 32);
                        lemma_whole_width_quotient(n as nat, 32);
                    }
                    true
                } else {
                    let shift: u32 = 32 - (self.bits as u32);
                    proof {
                        lemma_u32_shr_is_div(a, shift);
                        lemma_u32_shr_is_div(n, shift);
                    }
                    (a >> shift) == (n >> shift)
                }
            },
            (IpAddress::V6(n), IpAddress::V6(a)) => {
                if self.bits > 128 {
                    false
                } else if self.bits == 0 {
                    proof {
                        lemma_whole_width_quotient(a as nat, 128);
                        lemma_whole_width_quotient(n as nat, 128);
                    }
                    true
                } else {
                    let shift: u128 = 128 - (self.bits as u128);
                    proof {
                        lemma_u128_shr_is_div(a, shift);
                        lemma_u128_shr_is_div(n, shift);
                    }
                    (a >> shift) == (n >> shift)
                }
            },
            _ => false,
        }
    }
}

/// Dividing a number of at most `width` bits by `2^width` leaves nothing.
proof fn lemma_whole_width_quotient(a: nat, width: nat)
    requires
        width == 32 && a <= u32::MAX || width == 128 && a <= u128::MAX,
    ensures
        a / pow2(width) == 0,
{
    vstd::arithmetic::power2::lemma2_to64();
    if width == 128 {
        vstd::arithmetic::power2::lemma_pow2_adds(64, 64);
        assert(pow2(128) == 0x1_0000_0000_0000_0000_0000_0000_0000_0000) by (nonlinear_arith)
            requires
                pow2(128) == pow2(64) * pow2(64),
                pow2(64) == 0x1_0000_0000_0000_0000,
        ;
    }
    vstd::arithmetic::div_mod::lemma_basic_div(a as int, pow2(width) as int);
}

/// Whether any range of the list holds the address.
pub open spec fn cidr_blacklisted(ip: IpAddress, ranges: Seq<Cidr>) -> bool {
    exists|i: int| 0 <= i < ranges.len() && (#[trigger] ranges[i]).spec_contains(ip)
}

/// Whether `ip` falls in one of the blacklisted ranges.
pub fn is_cidr_blacklisted(ip: &IpAddress, ranges: &Vec<Cidr>) -> (hit: bool)
    ensures
        hit == cidr_blacklisted(*ip, ranges@),
{
    let mut i: usize = 0;
    while i < ranges.len()
        invariant
            0 <= i <= ranges.len(),
            forall|j: int| 0 <= j < i ==> !(#[trigger] ranges@[j]).spec_contains(*ip),
        decreases ranges.len() - i,
    {
        if ranges[i].contains(ip) {
            return true;
        }
        i = i + 1;
    }
    false
}

} // verus!
