use junction::addr::SocketAddr;
use junction::hostname::Hostname;
use junction::stdlib::{ipv4_answer, wait_after, NextName, StdlibResolver, Wake, LOOKUP_PORT};
use junction::time::{rng_jitter, Duration, Instant};

fn name(text: &str) -> Hostname {
    Hostname::new(text.to_string())
}

fn nanos(nanos: i128) -> Instant {
    Instant { nanos }
}

fn span(nanos: u128) -> Duration {
    Duration { nanos }
}

fn resolver() -> StdlibResolver {
    StdlibResolver::new_with(span(100), span(10), 2)
}

fn looked_up(next: NextName) -> Option<String> {
    match next {
        NextName::Lookup(name) => Some(name.as_str().to_string()),
        _ => None,
    }
}

const NOBODY: Wake = Wake { workers: false, waiters: false };
const WORKERS: Wake = Wake { workers: true, waiters: false };
const WAITERS: Wake = Wake { workers: false, waiters: true };
const EVERYONE: Wake = Wake { workers: true, waiters: true };

#[test]
fn a_change_wakes_those_whom_it_concerns() {
    let mut r = resolver();
    assert_eq!(r.subscribe(name("a.com"), 80), EVERYONE);
    assert_eq!(r.subscribe(name("a.com"), 80), NOBODY);
    assert_eq!(r.subscribe(name("a.com"), 443), EVERYONE);
    assert_eq!(r.set_names(vec![(name("b.com"), 80)]), WORKERS);
    assert_eq!(r.set_names(vec![(name("b.com"), 80)]), NOBODY);
    assert_eq!(r.insert_answer(&name("a.com"), nanos(1), Ok(vec![])), WAITERS);
    assert_eq!(r.insert_answer(&name("c.com"), nanos(1), Ok(vec![])), WAITERS);
    assert_eq!(r.unsubscribe(&name("a.com"), 80), WORKERS);
    assert_eq!(r.unsubscribe(&name("c.com"), 80), WORKERS);
}

#[test]
fn a_pin_on_a_port_without_endpoints_wakes_nobody() {
    let mut r = resolver();
    r.set_names(vec![(name("a.com"), 80)]);
    r.insert_answer(&name("a.com"), nanos(1), Ok(vec![SocketAddr::V4 { ip: 1, port: 1 }]));
    r.set_names(vec![(name("a.com"), 80), (name("a.com"), 443)]);
    assert!(r.get_endpoints(&name("a.com"), 443).is_none());
    assert_eq!(r.subscribe(name("a.com"), 443), NOBODY);
    let group = r.get_endpoints(&name("a.com"), 443).unwrap();
    assert_eq!(group.addrs(), &[SocketAddr::V4 { ip: 1, port: 443 }]);
}

#[test]
fn workers_stop_when_they_are_alone() {
    let mut r = resolver();
    r.subscribe(name("a.com"), 80);
    assert!(r.is_shutdown(2));
    assert!(r.is_shutdown(1));
    assert!(!r.is_shutdown(3));
    assert!(matches!(r.next_name(2, nanos(0)), NextName::Shutdown));
    assert_eq!(looked_up(r.next_name(3, nanos(0))), Some("a.com".to_string()));
    assert!(matches!(r.next_name(3, nanos(0)), NextName::Idle));
}

#[test]
fn a_name_is_due_after_the_interval() {
    let mut r = resolver();
    r.subscribe(name("a.com"), 80);
    r.insert_answer(&name("a.com"), nanos(1000), Err("refused".to_string()));
    assert!(matches!(r.next_name(3, nanos(1099)), NextName::Idle));
    assert_eq!(looked_up(r.next_name(3, nanos(1100))), Some("a.com".to_string()));
}

#[test]
fn an_answer_is_read_back() {
    let mut r = resolver();
    r.subscribe(name("a.com"), 8080);
    let answer = ipv4_answer(Ok(vec![
        SocketAddr::V6 { ip: 1, port: LOOKUP_PORT, flowinfo: 0, scope_id: 0 },
        SocketAddr::V4 { ip: 7, port: LOOKUP_PORT },
        SocketAddr::V4 { ip: 4, port: LOOKUP_PORT },
    ]));
    r.insert_answer(&name("a.com"), nanos(0), answer);
    let group = r.get_endpoints(&name("a.com"), 8080).unwrap();
    assert_eq!(
        group.addrs(),
        &[SocketAddr::V4 { ip: 4, port: 8080 }, SocketAddr::V4 { ip: 7, port: 8080 }]
    );
}

#[test]
fn a_failed_answer_stays_one() {
    assert_eq!(ipv4_answer(Err("refused".to_string())), Err("refused".to_string()));
}

#[test]
fn idle_workers_wait_for_the_earliest_name() {
    let mut r = resolver();
    assert_eq!(r.earliest(), None);
    assert_eq!(r.wait_time(nanos(0)), None);
    r.subscribe(name("a.com"), 80);
    r.subscribe(name("b.com"), 80);
    assert_eq!(r.wait_time(nanos(0)), None);
    r.insert_answer(&name("a.com"), nanos(50), Ok(vec![]));
    r.insert_answer(&name("b.com"), nanos(40), Ok(vec![]));
    assert_eq!(r.earliest(), Some(nanos(40)));
    for _ in 0..100 {
        let wait = r.wait_time(nanos(60)).unwrap();
        assert!((100..110).contains(&wait.nanos), "{:?}", wait);
        let wait = r.wait_time(nanos(10)).unwrap();
        assert!((130..140).contains(&wait.nanos), "{:?}", wait);
    }
}

#[test]
fn the_wait_is_the_sum_of_its_parts() {
    assert_eq!(wait_after(nanos(40), nanos(10), span(100), span(3)), span(133));
    assert_eq!(wait_after(nanos(40), nanos(90), span(100), span(3)), span(103));
    assert_eq!(wait_after(nanos(5), nanos(-5), span(0), span(0)), span(10));
}

#[test]
fn the_jitter_is_below_its_bound() {
    let mut seen = std::collections::BTreeSet::new();
    for _ in 0..200 {
        let jitter = rng_jitter(span(1_000_000_000));
        assert!(jitter.nanos < 1_000_000_000);
        seen.insert(jitter.nanos);
    }
    assert!(seen.len() > 1);
    assert_eq!(rng_jitter(span(1)), span(0));
}

#[test]
fn spans_do_not_go_below_zero() {
    assert_eq!(nanos(7).saturating_duration_since(nanos(3)), span(4));
    assert_eq!(nanos(3).saturating_duration_since(nanos(7)), span(0));
    assert_eq!(nanos(3).saturating_duration_since(nanos(3)), span(0));
    assert_eq!(
        nanos(i128::MAX).saturating_duration_since(nanos(i128::MIN)),
        span(u128::MAX)
    );
    assert_eq!(nanos(-3).saturating_duration_since(nanos(i128::MIN)), span((1 << 127) - 3));
}
