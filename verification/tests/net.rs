use tap::net::{ip_address_less, ip_endpoint_less, IpAddress};

#[test]
fn ipv4_orders_before_ipv6_and_by_value() {
    assert!(ip_address_less(IpAddress::V4(u32::MAX), IpAddress::V6(0)));
    assert!(!ip_address_less(IpAddress::V6(0), IpAddress::V4(0)));
    assert!(ip_address_less(IpAddress::V4(1), IpAddress::V4(2)));
    assert!(!ip_address_less(IpAddress::V6(2), IpAddress::V6(2)));
    assert!(ip_endpoint_less(IpAddress::V4(1), 80, IpAddress::V4(1), 81));
    assert!(!ip_endpoint_less(IpAddress::V4(1), 81, IpAddress::V4(1), 81));
    assert!(ip_endpoint_less(IpAddress::V4(1), 9000, IpAddress::V4(2), 1));
}
