use junction::addr::{addrs_on_port, ipv4_only, same_addrs, sort_addrs, SocketAddr};

fn addr_v4(ip: u32, port: u16) -> SocketAddr {
    SocketAddr::V4 { ip, port }
}

fn addr_v6(ip: u128, port: u16, flowinfo: u32, scope_id: u32) -> SocketAddr {
    SocketAddr::V6 { ip, port, flowinfo, scope_id }
}

#[test]
fn addresses_are_ordered_field_by_field() {
    let sorted = vec![
        addr_v4(1, 9),
        addr_v4(2, 1),
        addr_v4(2, 2),
        addr_v6(0, 9, 9, 9),
        addr_v6(1, 1, 9, 9),
        addr_v6(1, 2, 1, 9),
        addr_v6(1, 2, 2, 1),
        addr_v6(1, 2, 2, 2),
    ];
    let mut reversed = sorted.clone();
    reversed.reverse();
    assert_eq!(sort_addrs(&reversed), sorted);
    assert_eq!(sort_addrs(&sorted), sorted);
    assert_eq!(sort_addrs(&vec![]), vec![]);
}

#[test]
fn equal_addresses_all_stay() {
    assert_eq!(
        sort_addrs(&vec![addr_v4(2, 1), addr_v4(1, 1), addr_v4(2, 1)]),
        vec![addr_v4(1, 1), addr_v4(2, 1), addr_v4(2, 1)]
    );
}

#[test]
fn addresses_move_to_a_port() {
    assert_eq!(
        addrs_on_port(&vec![addr_v4(1, 2), addr_v6(3, 4, 5, 6)], 80),
        vec![addr_v4(1, 80), addr_v6(3, 80, 5, 6)]
    );
    let mut addr = addr_v4(1, 2);
    addr.set_port(7);
    assert_eq!(addr, addr_v4(1, 7));
    assert!(addr.is_ipv4());
    assert!(!addr_v6(1, 1, 1, 1).is_ipv4());
}

#[test]
fn only_ipv4_is_kept() {
    assert_eq!(
        ipv4_only(&vec![addr_v6(1, 1, 1, 1), addr_v4(9, 1), addr_v6(2, 2, 2, 2), addr_v4(3, 1)]),
        vec![addr_v4(9, 1), addr_v4(3, 1)]
    );
}

#[test]
fn lists_of_addresses_are_compared() {
    let a = vec![addr_v4(1, 1), addr_v4(2, 1)];
    assert!(same_addrs(&a, &a.clone()));
    assert!(!same_addrs(&a, &vec![addr_v4(2, 1), addr_v4(1, 1)]));
    assert!(!same_addrs(&a, &vec![addr_v4(1, 1)]));
    assert!(same_addrs(&vec![], &vec![]));
}
