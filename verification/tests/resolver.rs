use junction::addr::SocketAddr;
use junction::endpoints::EndpointGroup;
use junction::hostname::Hostname;
use junction::resolver::ResolverState;
use junction::time::Instant;

const LOCALHOST: u32 = 0x7f00_0001;

fn v4(ip: u32, port: u16) -> SocketAddr {
    SocketAddr::V4 { ip, port }
}

fn host(name: &str) -> Hostname {
    Hostname::new(name.to_string())
}

fn now() -> Instant {
    Instant { nanos: 1_000_000_000 }
}

fn plus_millis(t: Instant, millis: i128) -> Instant {
    Instant { nanos: t.nanos + millis * 1_000_000 }
}

fn update_all(resolver: &mut ResolverState, names: &[(&str, u16)]) -> bool {
    resolver.update_all(names.iter().map(|(name, port)| (host(name), *port)).collect())
}

#[test]
fn test_answers() {
    let mut resolver = ResolverState::default();

    update_all(
        &mut resolver,
        &[("www.junctionlabs.io", 80), ("www.junctionlabs.io", 443)],
    );

    resolver.insert_answer(
        &host("www.junctionlabs.io"),
        now(),
        // the port here shouldn't matter
        Ok(vec![v4(LOCALHOST, 1234)]),
    );

    assert_eq!(
        resolver.get_endpoints(&host("www.junctionlabs.io"), 80).as_deref(),
        Some(&EndpointGroup::from_dns_addrs(vec![v4(LOCALHOST, 80)])),
    );
    assert_eq!(
        resolver.get_endpoints(&host("www.junctionlabs.io"), 443).as_deref(),
        Some(&EndpointGroup::from_dns_addrs(vec![v4(LOCALHOST, 443)])),
    );
    assert_eq!(
        resolver.get_endpoints(&host("www.junctionlabs.io"), 1234).as_deref(),
        None,
    );
}

#[test]
fn test_resolver_tasks_next() {
    let mut resolver = ResolverState::default();

    update_all(
        &mut resolver,
        &[
            ("doesnotexistihopereallybad.com", 80),
            ("www.junctionlabs.io", 80),
            ("www.junctionlabs.io", 443),
        ],
    );

    let now = now();
    // there should be two tasks available, the third next_name should return
    // nothing.
    assert!(resolver.next_name(now).is_some());
    assert!(resolver.next_name(now).is_some());
    assert!(resolver.next_name(now).is_none());

    assert_eq!(
        resolver.names_and_ports(),
        &[
            ("doesnotexistihopereallybad.com", vec![80]),
            ("www.junctionlabs.io", vec![80, 443]),
        ]
    );

    // resolve one name.
    resolver.insert_answer(
        &host("www.junctionlabs.io"),
        now,
        Ok(vec![v4(LOCALHOST, 80)]),
    );
    // with a timestamp in the past, there should be no name available
    assert!(resolver.next_name(plus_millis(now, -1)).is_none());
    // with a timestamp in the future, there should be one name available
    assert!(resolver.next_name(plus_millis(now, 1)).is_some());
    assert!(resolver.next_name(plus_millis(now, 1)).is_none());

    assert_eq!(
        resolver.names_and_ports(),
        &[
            ("doesnotexistihopereallybad.com", vec![80]),
            ("www.junctionlabs.io", vec![80, 443]),
        ]
    );
}

#[test]
fn test_pinned_name() {
    let mut resolver = ResolverState::default();

    resolver.pin(host("important.com"), 1234);

    update_all(&mut resolver, &[("www.example.com", 80)]);
    assert_eq!(
        resolver.names_and_ports(),
        &[("important.com", vec![1234]), ("www.example.com", vec![80]),]
    );

    update_all(&mut resolver, &[("www.newthing.com", 80)]);
    assert_eq!(
        resolver.names_and_ports(),
        &[
            ("important.com", vec![1234]),
            ("www.newthing.com", vec![80]),
        ]
    );

    update_all(&mut resolver, &[("www.newthing.com", 443)]);
    assert_eq!(
        resolver.names_and_ports(),
        &[
            ("important.com", vec![1234]),
            ("www.newthing.com", vec![443]),
        ]
    );

    resolver.remove(&host("important.com"), 1234);
    update_all(&mut resolver, &[("www.newthing.com", 443)]);
    assert_eq!(
        resolver.names_and_ports(),
        &[("www.newthing.com", vec![443]),]
    );
}

#[test]
fn test_pin_new_port() {
    let mut resolver = ResolverState::default();

    update_all(
        &mut resolver,
        &[("www.junctionlabs.io", 80), ("www.junctionlabs.io", 443)],
    );

    resolver.insert_answer(
        &host("www.junctionlabs.io"),
        now(),
        // the port here shouldn't matter
        Ok(vec![v4(LOCALHOST, 1234)]),
    );

    assert!(
        !resolver.pin(host("www.junctionlabs.io"), 443),
        "should not return true when the same port is inserted"
    );
    assert!(
        resolver.pin(host("www.junctionlabs.io"), 7777),
        "should return true when a new port is inserted"
    );

    let endpoints: Vec<SocketAddr> = resolver
        .get_endpoints(&host("www.junctionlabs.io"), 7777)
        .unwrap()
        .addrs()
        .to_vec();
    assert_eq!(endpoints, vec![v4(LOCALHOST, 7777)]);
}

#[test]
fn test_reset_drops_inflight() {
    let mut resolver = ResolverState::default();

    update_all(&mut resolver, &[("www.example.com", 8910)]);

    let now = now();

    // take one name
    assert!(resolver.next_name(now).is_some());

    // reset while the name is in-flight. should have one more name to take.
    update_all(&mut resolver, &[("www.junctionlabs.io", 8910)]);
    assert!(resolver.next_name(now).is_some());
    assert!(resolver.next_name(now).is_none());

    // inserting the old answer shouldn't do anything
    resolver.insert_answer(
        &host("www.example.com"),
        now,
        Ok(vec![v4(LOCALHOST, 80)]),
    );
    assert_eq!(
        resolver.names_and_ports(),
        &[("www.junctionlabs.io", vec![8910])]
    );
}

fn addrs_of(resolver: &ResolverState, name: &str, port: u16) -> Option<Vec<SocketAddr>> {
    resolver.get_endpoints(&host(name), port).map(|group| group.addrs().to_vec())
}

fn at(nanos: i128) -> Instant {
    Instant { nanos }
}

#[test]
fn answers_are_sorted_and_put_on_the_port() {
    let mut resolver = ResolverState::default();
    resolver.pin(host("a.com"), 80);
    resolver.insert_answer(&host("a.com"), at(1), Ok(vec![v4(9, 5), v4(2, 7), v4(9, 3), v4(2, 7)]));
    assert_eq!(
        addrs_of(&resolver, "a.com", 80),
        Some(vec![v4(2, 80), v4(2, 80), v4(9, 80), v4(9, 80)])
    );
}

#[test]
fn a_later_answer_overwrites_an_earlier_one() {
    let mut resolver = ResolverState::default();
    update_all(&mut resolver, &[("a.com", 80), ("a.com", 443)]);
    resolver.insert_answer(&host("a.com"), at(1), Ok(vec![v4(1, 0), v4(2, 0)]));
    resolver.insert_answer(&host("a.com"), at(2), Ok(vec![v4(3, 0)]));
    assert_eq!(addrs_of(&resolver, "a.com", 80), Some(vec![v4(3, 80)]));
    assert_eq!(addrs_of(&resolver, "a.com", 443), Some(vec![v4(3, 443)]));
    resolver.insert_answer(&host("a.com"), at(3), Ok(vec![]));
    assert_eq!(addrs_of(&resolver, "a.com", 80), Some(vec![]));
}

#[test]
fn the_order_of_an_answer_does_not_matter() {
    let mut one = ResolverState::default();
    let mut other = ResolverState::default();
    one.pin(host("a.com"), 80);
    other.pin(host("a.com"), 80);
    one.insert_answer(&host("a.com"), at(1), Ok(vec![v4(1, 0), v4(2, 0)]));
    other.insert_answer(&host("a.com"), at(1), Ok(vec![v4(2, 0), v4(1, 0)]));
    assert_eq!(addrs_of(&one, "a.com", 80), addrs_of(&other, "a.com", 80));
}

#[test]
fn a_failed_lookup_keeps_the_endpoints() {
    let mut resolver = ResolverState::default();
    resolver.pin(host("a.com"), 80);
    resolver.insert_answer(&host("a.com"), at(1), Err("no such host".to_string()));
    assert_eq!(addrs_of(&resolver, "a.com", 80), None);
    assert_eq!(resolver.min_resolved_at(), Some(at(1)));
    resolver.insert_answer(&host("a.com"), at(2), Ok(vec![v4(1, 0)]));
    resolver.insert_answer(&host("a.com"), at(3), Err("no such host".to_string()));
    assert_eq!(addrs_of(&resolver, "a.com", 80), Some(vec![v4(1, 80)]));
    assert_eq!(resolver.min_resolved_at(), Some(at(3)));
}

#[test]
fn a_repeated_answer_reaches_a_new_port() {
    let mut resolver = ResolverState::default();
    update_all(&mut resolver, &[("a.com", 80)]);
    resolver.insert_answer(&host("a.com"), at(1), Ok(vec![v4(2, 0), v4(1, 0)]));
    let group = resolver.get_endpoints(&host("a.com"), 80).unwrap();
    update_all(&mut resolver, &[("a.com", 80), ("a.com", 443)]);
    assert_eq!(addrs_of(&resolver, "a.com", 443), None);
    resolver.insert_answer(&host("a.com"), at(2), Ok(vec![v4(1, 0), v4(2, 0)]));
    assert_eq!(addrs_of(&resolver, "a.com", 443), Some(vec![v4(1, 443), v4(2, 443)]));
    // what was there already is the same group as before
    let again = resolver.get_endpoints(&host("a.com"), 80).unwrap();
    assert!(std::sync::Arc::ptr_eq(&group, &again));
}

#[test]
fn a_failed_lookup_brings_nothing_to_a_new_port() {
    let mut resolver = ResolverState::default();
    update_all(&mut resolver, &[("a.com", 80)]);
    resolver.insert_answer(&host("a.com"), at(1), Ok(vec![v4(1, 0)]));
    update_all(&mut resolver, &[("a.com", 80), ("a.com", 443)]);
    resolver.insert_answer(&host("a.com"), at(2), Err("no such host".to_string()));
    assert_eq!(addrs_of(&resolver, "a.com", 443), None);
    resolver.insert_answer(&host("a.com"), at(3), Ok(vec![v4(2, 0)]));
    assert_eq!(addrs_of(&resolver, "a.com", 80), Some(vec![v4(2, 80)]));
    assert_eq!(addrs_of(&resolver, "a.com", 443), Some(vec![v4(2, 443)]));
}

#[test]
fn a_pinned_port_gets_a_repeated_answer() {
    let mut resolver = ResolverState::default();
    update_all(&mut resolver, &[("a.com", 80)]);
    resolver.insert_answer(&host("a.com"), at(1), Ok(vec![v4(1, 0)]));
    assert!(resolver.pin(host("a.com"), 443));
    resolver.insert_answer(&host("a.com"), at(2), Ok(vec![v4(1, 0)]));
    assert_eq!(addrs_of(&resolver, "a.com", 443), Some(vec![v4(1, 443)]));
}

#[test]
fn an_answer_stays_with_its_name() {
    let mut resolver = ResolverState::default();
    update_all(&mut resolver, &[("a.com", 80), ("b.com", 80)]);
    resolver.insert_answer(&host("a.com"), at(1), Ok(vec![v4(1, 0)]));
    assert_eq!(addrs_of(&resolver, "b.com", 80), None);
    resolver.insert_answer(&host("c.com"), at(1), Ok(vec![v4(1, 0)]));
    assert_eq!(resolver.names_and_ports(), &[("a.com", vec![80]), ("b.com", vec![80])]);
}

#[test]
fn new_names_go_first_and_in_order() {
    let mut resolver = ResolverState::default();
    update_all(&mut resolver, &[("c.com", 80), ("a.com", 80), ("b.com", 80)]);
    resolver.insert_answer(&host("a.com"), at(1), Ok(vec![]));
    assert_eq!(resolver.next_name(at(5)), Some(host("b.com")));
    assert_eq!(resolver.next_name(at(5)), Some(host("c.com")));
    assert_eq!(resolver.next_name(at(5)), Some(host("a.com")));
    assert_eq!(resolver.next_name(at(5)), None);
}

#[test]
fn of_the_due_names_the_one_resolved_last_is_next() {
    let mut resolver = ResolverState::default();
    update_all(&mut resolver, &[("a.com", 80), ("b.com", 80), ("c.com", 80), ("d.com", 80)]);
    resolver.insert_answer(&host("a.com"), at(2), Ok(vec![]));
    resolver.insert_answer(&host("b.com"), at(4), Ok(vec![]));
    resolver.insert_answer(&host("c.com"), at(4), Ok(vec![]));
    resolver.insert_answer(&host("d.com"), at(6), Ok(vec![]));
    assert_eq!(resolver.min_resolved_at(), Some(at(2)));
    assert_eq!(resolver.next_name(at(1)), None);
    assert_eq!(resolver.next_name(at(4)), Some(host("b.com")));
    assert_eq!(resolver.next_name(at(4)), Some(host("c.com")));
    assert_eq!(resolver.next_name(at(4)), Some(host("a.com")));
    assert_eq!(resolver.next_name(at(5)), None);
    assert_eq!(resolver.next_name(at(6)), Some(host("d.com")));
}

#[test]
fn a_claim_lasts_until_there_is_an_answer() {
    let mut resolver = ResolverState::default();
    update_all(&mut resolver, &[("a.com", 80)]);
    assert_eq!(resolver.next_name(at(0)), Some(host("a.com")));
    resolver.pin(host("a.com"), 443);
    update_all(&mut resolver, &[("a.com", 8080)]);
    resolver.remove(&host("a.com"), 8080);
    assert_eq!(resolver.next_name(at(9)), None);
    resolver.insert_answer(&host("a.com"), at(3), Ok(vec![]));
    assert_eq!(resolver.next_name(at(2)), None);
    assert_eq!(resolver.next_name(at(3)), Some(host("a.com")));
}

#[test]
fn nothing_was_resolved_yet() {
    let mut resolver = ResolverState::default();
    assert_eq!(resolver.min_resolved_at(), None);
    assert_eq!(resolver.next_name(at(0)), None);
    update_all(&mut resolver, &[("a.com", 80)]);
    assert_eq!(resolver.min_resolved_at(), None);
}

#[test]
fn an_update_says_whether_a_port_came_or_went() {
    let mut resolver = ResolverState::default();
    assert!(!update_all(&mut resolver, &[]));
    assert!(update_all(&mut resolver, &[("a.com", 80), ("a.com", 80)]));
    assert!(!update_all(&mut resolver, &[("a.com", 80)]));
    assert!(update_all(&mut resolver, &[("a.com", 80), ("b.com", 80)]));
    assert!(!update_all(&mut resolver, &[("b.com", 80), ("a.com", 80), ("b.com", 80)]));
    assert!(update_all(&mut resolver, &[("a.com", 443)]));
    assert!(update_all(&mut resolver, &[]));
    assert_eq!(resolver.names_and_ports(), &[]);
}

#[test]
fn an_update_keeps_what_is_known() {
    let mut resolver = ResolverState::default();
    update_all(&mut resolver, &[("a.com", 80), ("b.com", 80)]);
    resolver.insert_answer(&host("a.com"), at(1), Ok(vec![v4(1, 0)]));
    update_all(&mut resolver, &[("a.com", 80), ("a.com", 443)]);
    assert_eq!(addrs_of(&resolver, "a.com", 80), Some(vec![v4(1, 80)]));
    assert_eq!(addrs_of(&resolver, "a.com", 443), None);
    assert_eq!(resolver.min_resolved_at(), Some(at(1)));
}

#[test]
fn a_dropped_name_starts_anew() {
    let mut resolver = ResolverState::default();
    update_all(&mut resolver, &[("a.com", 80)]);
    resolver.insert_answer(&host("a.com"), at(1), Ok(vec![v4(1, 0)]));
    assert_eq!(resolver.next_name(at(1)), Some(host("a.com")));
    update_all(&mut resolver, &[]);
    resolver.insert_answer(&host("a.com"), at(2), Ok(vec![v4(1, 0)]));
    update_all(&mut resolver, &[("a.com", 80)]);
    assert_eq!(addrs_of(&resolver, "a.com", 80), None);
    assert_eq!(resolver.min_resolved_at(), None);
    assert_eq!(resolver.next_name(at(0)), Some(host("a.com")));
}

#[test]
fn a_pinned_port_outlasts_updates() {
    let mut resolver = ResolverState::default();
    assert!(resolver.pin(host("a.com"), 80));
    assert!(!resolver.pin(host("a.com"), 80));
    resolver.insert_answer(&host("a.com"), at(1), Ok(vec![v4(1, 0)]));
    assert!(!update_all(&mut resolver, &[]));
    assert_eq!(addrs_of(&resolver, "a.com", 80), Some(vec![v4(1, 80)]));
}

#[test]
fn an_update_can_be_pinned_afterwards() {
    let mut resolver = ResolverState::default();
    update_all(&mut resolver, &[("a.com", 80)]);
    assert!(!resolver.pin(host("a.com"), 80));
    assert!(!update_all(&mut resolver, &[]));
    assert_eq!(resolver.names_and_ports(), &[("a.com", vec![80])]);
}

#[test]
fn remove_undoes_pin() {
    let mut resolver = ResolverState::default();
    update_all(&mut resolver, &[("a.com", 80)]);
    resolver.pin(host("a.com"), 443);
    resolver.pin(host("b.com"), 80);
    resolver.remove(&host("a.com"), 443);
    resolver.remove(&host("b.com"), 80);
    assert_eq!(resolver.names_and_ports(), &[("a.com", vec![80])]);
    resolver.remove(&host("b.com"), 80);
    resolver.remove(&host("a.com"), 443);
    assert_eq!(resolver.names_and_ports(), &[("a.com", vec![80])]);
    resolver.remove(&host("a.com"), 80);
    assert_eq!(resolver.names_and_ports(), &[]);
}

#[test]
fn names_stand_in_the_order_of_their_bytes() {
    let mut resolver = ResolverState::default();
    update_all(
        &mut resolver,
        &[("b", 2), ("aa", 1), ("a", 1), ("\u{e9}", 1), ("z", 1), ("b", 1), ("B", 1)],
    );
    assert_eq!(
        resolver.names_and_ports(),
        &[
            ("B", vec![1]),
            ("a", vec![1]),
            ("aa", vec![1]),
            ("b", vec![1, 2]),
            ("z", vec![1]),
            ("\u{e9}", vec![1]),
        ]
    );
}

#[test]
fn handles_on_endpoints_outlive_a_change() {
    let mut resolver = ResolverState::default();
    resolver.pin(host("a.com"), 80);
    resolver.insert_answer(&host("a.com"), at(1), Ok(vec![v4(1, 0)]));
    let group = resolver.get_endpoints(&host("a.com"), 80).unwrap();
    let again = resolver.get_endpoints(&host("a.com"), 80).unwrap();
    assert!(std::sync::Arc::ptr_eq(&group, &again));
    resolver.remove(&host("a.com"), 80);
    assert_eq!(group.addrs(), &[v4(1, 80)]);
}
