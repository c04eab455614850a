//! Internet addresses as plain numbers.
use vstd::prelude::*;

verus! {

/// The number that bytes spell when the first counts most.
pub open spec fn be_number(bytes: Seq<u8>) -> nat
    decreases bytes.len(),
{
    if bytes.len() == 0 {
        0
    } else {
        be_number(bytes.drop_last()) * 256 + bytes.last() as nat
    }
}

/// An address of a host. The first byte of the address counts most in the number.
#[derive(Clone, Copy, Debug, PartialEq, Eq, Structural)]
pub enum IpAddress {
    V4(u32),
    V6(u128),
}

impl IpAddress {
    /// The address `a.b.c.d`.
    pub fn v4(a: u8, b: u8, c: u8, d: u8) -> (r: IpAddress)
        ensures
            r == IpAddress::V4(be_number(seq![a, b, c, d]) as u32),
    {
        proof {
            lemma_be_number_4(seq![a, b, c, d]);
        }
        IpAddress::V4(a as u32 * 0x100_0000 + b as u32 * 0x1_0000 + c as u32 * 0x100 + d as u32)
    }
}

/// Four bytes spell this number.
pub proof fn lemma_be_number_4(s: Seq<u8>)
    requires
        s.len() == 4,
    ensures
        be_number(s) == s[0] * 0x100_0000 + s[1] * 0x1_0000 + s[2] * 0x100 + s[3],
{
    reveal_with_fuel(be_number, 5);
    assert(s.drop_last().drop_last().drop_last().drop_last() =~= Seq::<u8>::empty());
}

/// A host and a port on it.
#[derive(Clone, Copy, Debug, PartialEq, Eq, Structural)]
#[allow(inconsistent_fields)]
pub enum SocketAddress {
    V4 { ip: u32, port: u16 },
    V6 { ip: u128, port: u16, flowinfo: u32, scope_id: u32 },
}

impl SocketAddress {
    /// The port `port` on the host `ip`.
    pub open spec fn at(ip: IpAddress, port: u16) -> Self {
        match ip {
            IpAddress::V4(ip) => SocketAddress::V4 { ip, port },
            IpAddress::V6(ip) => SocketAddress::V6 { ip, port, flowinfo: 0, scope_id: 0 },
        }
    }

    /// The port `port` on the host `ip`.
    pub fn new(ip: IpAddress, port: u16) -> (r: Self)
        ensures
            r == Self::at(ip, port),
    {
        match ip {
            IpAddress::V4(ip) => SocketAddress::V4 { ip, port },
            IpAddress::V6(ip) => SocketAddress::V6 { ip, port, flowinfo: 0, scope_id: 0 },
        }
    }
}

/// The first byte counts most: each further byte multiplies what came before by 256.
pub proof fn law_bytes_spell_a_number(bytes: Seq<u8>, b: u8)
    ensures
        be_number(Seq::<u8>::empty()) == 0,
        be_number(bytes.push(b)) == be_number(bytes) * 256 + b,
{
    assert(bytes.push(b).drop_last() =~= bytes);
}

/// A socket address has the host and the port that it was made of, and nothing else.
pub proof fn law_address_is_host_and_port(v4: u32, v6: u128, port: u16)
    ensures
        SocketAddress::at(IpAddress::V4(v4), port) == (SocketAddress::V4 { ip: v4, port }),
        SocketAddress::at(IpAddress::V6(v6), port) == (SocketAddress::V6 {
            ip: v6,
            port,
            flowinfo: 0,
            scope_id: 0,
        }),
{
}

} // verus!
