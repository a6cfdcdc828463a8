use vstd::prelude::*;

verus! {

/// An IP address, held as its numeric value in network byte order. IPv4
/// addresses order before IPv6 ones; within a family, addresses order by
/// value, which is the order of their octets.
#[derive(Debug, Clone, Copy, PartialEq, Eq, Hash, Structural)]
pub enum IpAddress {
    V4(u32),
    V6(u128),
}

/// `a` orders strictly before `b`.
pub open spec fn address_less(a: IpAddress, b: IpAddress) -> bool {
    match (a, b) {
        (IpAddress::V4(x), IpAddress::V4(y)) => x < y,
        (IpAddress::V4(_), IpAddress::V6(_)) => true,
        (IpAddress::V6(_), IpAddress::V4(_)) => false,
        (IpAddress::V6(x), IpAddress::V6(y)) => x < y,
    }
}

/// The endpoint `(a, a_port)` orders strictly before `(b, b_port)`: by
/// address first, then by port.
pub open spec fn endpoint_less(a: IpAddress, a_port: u16, b: IpAddress, b_port: u16) -> bool {
    address_less(a, b) || (a == b && a_port < b_port)
}

/// Whether `a` orders strictly before `b`.
pub fn ip_address_less(a: IpAddress, b: IpAddress) -> (res: bool)
    ensures
        res == address_less(a, b),
{
    match (a, b) {
        (IpAddress::V4(x), IpAddress::V4(y)) => x < y,
        (IpAddress::V4(_), IpAddress::V6(_)) => true,
        (IpAddress::V6(_), IpAddress::V4(_)) => false,
        (IpAddress::V6(x), IpAddress::V6(y)) => x < y,
    }
}

/// Whether the endpoint `(a, a_port)` orders strictly before `(b, b_port)`.
pub fn ip_endpoint_less(a: IpAddress, a_port: u16, b: IpAddress, b_port: u16) -> (res: bool)
    ensures
        res == endpoint_less(a, a_port, b, b_port),
{
    ip_address_less(a, b) || (a == b && a_port < b_port)
}

} // verus!
