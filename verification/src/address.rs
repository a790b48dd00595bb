use crate::wire::u16_wire;
use vstd::prelude::*;

verus! {

/// An IPv4 address: its four octets, the first one first.
#[derive(Debug, Clone, Copy, PartialEq, Eq)]
pub struct Ipv4Address {
    pub octets: [u8; 4],
}

/// An IPv6 address: its sixteen octets, the first one first.
#[derive(Debug, Clone, Copy, PartialEq, Eq)]
pub struct Ipv6Address {
    pub octets: [u8; 16],
}

impl View for Ipv4Address {
    type V = Seq<u8>;

    open spec fn view(&self) -> Seq<u8> {
        self.octets@
    }
}

impl View for Ipv6Address {
    type V = Seq<u8>;

    open spec fn view(&self) -> Seq<u8> {
        self.octets@
    }
}

impl Ipv4Address {
    /// The address `a.b.c.d`.
    pub fn new(a: u8, b: u8, c: u8, d: u8) -> (address: Ipv4Address)
        ensures
            address@ == seq![a, b, c, d],
    {
        let address = Ipv4Address { octets: [a, b, c, d] };
        assert(address@ =~= seq![a, b, c, d]);
        address
    }

    /// The four octets of the address.
    pub fn octets(&self) -> (octets: [u8; 4])
        ensures
            octets@ == self@,
    {
        self.octets
    }
}

impl Ipv6Address {
    /// The address of the eight 16-bit segments `a:b:c:d:e:f:g:h`.
    pub fn new(a: u16, b: u16, c: u16, d: u16, e: u16, f: u16, g: u16, h: u16) -> (address:
        Ipv6Address)
        ensures
            address@ == u16_wire(a) + u16_wire(b) + u16_wire(c) + u16_wire(d) + u16_wire(e)
                + u16_wire(f) + u16_wire(g) + u16_wire(h),
    {
        let address = Ipv6Address {
            octets: [
                (a / 0x100) as u8,
                (a % 0x100) as u8,
                (b / 0x100) as u8,
                (b % 0x100) as u8,
                (c / 0x100) as u8,
                (c % 0x100) as u8,
                (d / 0x100) as u8,
                (d % 0x100) as u8,
                (e / 0x100) as u8,
                (e % 0x100) as u8,
                (f / 0x100) as u8,
                (f % 0x100) as u8,
                (g / 0x100) as u8,
                (g % 0x100) as u8,
                (h / 0x100) as u8,
                (h % 0x100) as u8,
            ],
        };
        assert(address@ =~= u16_wire(a) + u16_wire(b) + u16_wire(c) + u16_wire(d) + u16_wire(e)
            + u16_wire(f) + u16_wire(g) + u16_wire(h));
        address
    }

    /// The sixteen octets of the address.
    pub fn octets(&self) -> (octets: [u8; 16])
        ensures
            octets@ == self@,
    {
        self.octets
    }
}

} // verus!
