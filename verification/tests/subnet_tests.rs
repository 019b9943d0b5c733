use subnet_calculator::ipv4::Ipv4Addr;
use subnet_calculator::subnet::{AllocationError, Calculator};

#[test]
fn test_sequential_subnets() {
    let initial_address = Ipv4Addr::new(192, 168, 0, 0);
    let mut last_address = initial_address;

    // Test for 50 hosts
    let (result1, next_address1) = Calculator::generate_subnet(last_address, 50).unwrap();
    assert_eq!(result1.address, Ipv4Addr::new(192, 168, 0, 0));
    assert_eq!(result1.mask_length, 26);
    assert_eq!(result1.start, Ipv4Addr::new(192, 168, 0, 1));
    assert_eq!(result1.end, Ipv4Addr::new(192, 168, 0, 62));
    assert_eq!(result1.broadcast, Ipv4Addr::new(192, 168, 0, 63));
    assert_eq!(result1.hosts, 62);
    last_address = next_address1;

    // Test for 20 hosts
    let (result2, next_address2) = Calculator::generate_subnet(last_address, 20).unwrap();
    assert_eq!(result2.address, Ipv4Addr::new(192, 168, 0, 64));
    assert_eq!(result2.mask_length, 27);
    assert_eq!(result2.start, Ipv4Addr::new(192, 168, 0, 65));
    assert_eq!(result2.end, Ipv4Addr::new(192, 168, 0, 94));
    assert_eq!(result2.broadcast, Ipv4Addr::new(192, 168, 0, 95));
    assert_eq!(result2.hosts, 30);
    last_address = next_address2;

    // Test for 5 hosts
    let (result3, _) = Calculator::generate_subnet(last_address, 5).unwrap();
    assert_eq!(result3.address, Ipv4Addr::new(192, 168, 0, 96));
    assert_eq!(result3.mask_length, 29);
    assert_eq!(result3.start, Ipv4Addr::new(192, 168, 0, 97));
    assert_eq!(result3.end, Ipv4Addr::new(192, 168, 0, 102));
    assert_eq!(result3.broadcast, Ipv4Addr::new(192, 168, 0, 103));
    assert_eq!(result3.hosts, 6);
}

#[test]
fn chained_allocations_are_contiguous() {
    let mut cursor = Ipv4Addr::new(10, 0, 0, 0);
    let mut previous_broadcast: Option<u32> = None;
    for hosts in [50, 20, 5, 100, 2, 500] {
        let (subnet, next) = Calculator::generate_subnet(cursor, hosts).unwrap();
        assert_eq!(subnet.address.to_u32(), cursor.to_u32());
        if let Some(b) = previous_broadcast {
            assert_eq!(b + 1, subnet.address.to_u32());
            assert!(b < subnet.address.to_u32());
        }
        assert_eq!(subnet.broadcast.to_u32() + 1, next.to_u32());
        previous_broadcast = Some(subnet.broadcast.to_u32());
        cursor = next;
    }
}

#[test]
fn subnet_invariants_hold() {
    for hosts in [2, 3, 5, 6, 23, 50, 62, 100, 254, 1000, 4094] {
        let seed = Ipv4Addr::new(172, 16, 4, 0);
        let (subnet, next) = Calculator::generate_subnet(seed, hosts).unwrap();
        let increment = 1u64 << (32 - subnet.mask_length);
        assert_eq!(subnet.start.to_u32() as u64, subnet.address.to_u32() as u64 + 1);
        assert_eq!(
            subnet.broadcast.to_u32() as u64,
            subnet.address.to_u32() as u64 + increment - 1
        );
        assert_eq!(subnet.end.to_u32(), subnet.broadcast.to_u32() - 1);
        assert_eq!(subnet.hosts as u64, increment - 2);
        // The block is the smallest power of two holding the request.
        assert!(increment >= hosts as u64);
        assert!(increment < 2 * hosts as u64);
        assert_eq!(next.to_u32() as u64, subnet.address.to_u32() as u64 + increment);
    }
}

#[test]
fn minimality_away_from_power_of_two_boundaries() {
    // For host counts that are neither a power of two nor one less than
    // one, the usable range covers the request and half the block would
    // not.
    for hosts in [5, 6, 10, 50, 100, 200, 1000] {
        let seed = Ipv4Addr::new(10, 0, 0, 0);
        let (subnet, _) = Calculator::generate_subnet(seed, hosts).unwrap();
        let increment = 1u64 << (32 - subnet.mask_length);
        assert!(increment - 2 >= hosts as u64);
        assert!(increment / 2 - 2 < hosts as u64);
    }
}

#[test]
fn power_of_two_requests_get_degenerate_usable_ranges() {
    // A request at a power of two (or one less) fills its block exactly,
    // leaving fewer usable addresses than requested once the network and
    // broadcast addresses are taken out.
    let seed = Ipv4Addr::new(10, 0, 0, 0);
    let (subnet, _) = Calculator::generate_subnet(seed, 64).unwrap();
    assert_eq!(subnet.mask_length, 26);
    assert_eq!(subnet.hosts, 62);
    let (subnet, _) = Calculator::generate_subnet(seed, 63).unwrap();
    assert_eq!(subnet.mask_length, 26);
    assert_eq!(subnet.hosts, 62);
}

#[test]
fn zero_hosts_is_invalid() {
    let seed = Ipv4Addr::new(192, 168, 0, 0);
    let err = Calculator::generate_subnet(seed, 0).unwrap_err();
    assert_eq!(err, AllocationError::InvalidHostCount);
}

#[test]
fn one_host_is_invalid() {
    // A one-address block has no room for network and broadcast addresses.
    let seed = Ipv4Addr::new(192, 168, 0, 0);
    let err = Calculator::generate_subnet(seed, 1).unwrap_err();
    assert_eq!(err, AllocationError::InvalidHostCount);
}

#[test]
fn allocation_near_top_of_address_space_is_exhausted() {
    let seed = Ipv4Addr::new(255, 255, 255, 250);
    let err = Calculator::generate_subnet(seed, 100).unwrap_err();
    assert_eq!(err, AllocationError::AddressSpaceExhausted);
}

#[test]
fn allocation_ending_exactly_at_top_is_exhausted() {
    // The block itself would fit, but no next free address is left after
    // it, so the allocation is refused.
    let seed = Ipv4Addr::new(255, 255, 255, 254);
    let err = Calculator::generate_subnet(seed, 2).unwrap_err();
    assert_eq!(err, AllocationError::AddressSpaceExhausted);
}

#[test]
fn allocation_just_below_top_succeeds() {
    let seed = Ipv4Addr::new(255, 255, 255, 252);
    let (subnet, next) = Calculator::generate_subnet(seed, 2).unwrap();
    assert_eq!(subnet.broadcast, Ipv4Addr::new(255, 255, 255, 253));
    assert_eq!(next, Ipv4Addr::new(255, 255, 255, 254));
}

#[test]
fn huge_request_is_exhausted() {
    let seed = Ipv4Addr::new(0, 0, 0, 0);
    let err = Calculator::generate_subnet(seed, u32::MAX).unwrap_err();
    assert_eq!(err, AllocationError::AddressSpaceExhausted);
}
