use dhcp_lease::{IpPool, Ipv4};

fn ip(d: u8) -> Ipv4 {
    Ipv4(192, 168, 1, d)
}

#[test]
fn new_pool_holds_the_range_in_order() {
    let pool = IpPool::new(100, 102);
    assert_eq!(pool.available_addresses(), &vec![ip(100), ip(101), ip(102)]);
    assert!(pool.leased_addresses().is_empty());
}

#[test]
fn new_pool_with_start_after_end_is_empty() {
    let mut pool = IpPool::new(5, 4);
    assert!(pool.available_addresses().is_empty());
    assert_eq!(pool.lease_ip(), None);
}

#[test]
fn full_octet_range_has_256_addresses() {
    let pool = IpPool::new(0, 255);
    assert_eq!(pool.available_addresses().len(), 256);
    assert_eq!(pool.available_addresses()[255], ip(255));
}

#[test]
fn lease_ip_takes_last_available_until_exhausted() {
    let mut pool = IpPool::new(100, 102);
    assert_eq!(pool.lease_ip(), Some(ip(102)));
    assert_eq!(pool.lease_ip(), Some(ip(101)));
    assert_eq!(pool.lease_ip(), Some(ip(100)));
    assert_eq!(pool.lease_ip(), None);
    assert_eq!(pool.leased_addresses(), &vec![ip(102), ip(101), ip(100)]);
}

#[test]
fn release_then_lease_hands_the_same_address_back() {
    let mut pool = IpPool::new(100, 102);
    for _ in 0..3 {
        pool.lease_ip();
    }
    pool.release_ip(ip(101));
    assert_eq!(pool.available_addresses(), &vec![ip(101)]);
    assert_eq!(pool.lease_ip(), Some(ip(101)));
}

#[test]
fn release_of_an_address_not_leased_changes_nothing() {
    let mut pool = IpPool::new(100, 101);
    pool.release_ip(ip(100));
    pool.release_ip(ip(7));
    assert_eq!(pool.available_addresses(), &vec![ip(100), ip(101)]);
    assert!(pool.leased_addresses().is_empty());
}

#[test]
fn confirm_lease_of_leased_address_is_true_without_change() {
    let mut pool = IpPool::new(100, 101);
    pool.lease_ip();
    assert!(pool.confirm_lease(ip(101)));
    assert_eq!(pool.available_addresses(), &vec![ip(100)]);
    assert_eq!(pool.leased_addresses(), &vec![ip(101)]);
}

#[test]
fn confirm_lease_of_available_address_moves_it() {
    let mut pool = IpPool::new(100, 102);
    assert!(pool.confirm_lease(ip(100)));
    assert_eq!(pool.available_addresses(), &vec![ip(101), ip(102)]);
    assert_eq!(pool.leased_addresses(), &vec![ip(100)]);
}

#[test]
fn confirm_lease_of_foreign_address_is_false() {
    let mut pool = IpPool::new(100, 101);
    assert!(!pool.confirm_lease(Ipv4(10, 0, 0, 1)));
    assert_eq!(pool.available_addresses(), &vec![ip(100), ip(101)]);
    assert!(pool.leased_addresses().is_empty());
}

#[test]
fn manages_covers_available_and_leased() {
    let mut pool = IpPool::from_addresses(vec![ip(1), ip(2)]);
    pool.lease_ip();
    assert!(pool.manages(ip(1)));
    assert!(pool.manages(ip(2)));
    assert!(!pool.manages(ip(3)));
}

#[test]
fn partition_keeps_its_size_through_operations() {
    let mut pool = IpPool::new(100, 104);
    pool.lease_ip();
    pool.confirm_lease(ip(100));
    pool.release_ip(ip(104));
    pool.lease_ip();
    let av = pool.available_addresses();
    let ls = pool.leased_addresses();
    assert_eq!(av.len() + ls.len(), 5);
    for a in av {
        assert!(!ls.contains(a));
    }
}
