//! What each operation of the resolver does to everything that is known of a name, field by
//! field.
use vstd::prelude::*;

use crate::addr::{
    every_address_is_on_the_port, on_port, sorted_addresses_ascend, sorted_addrs,
    sorted_addrs_is_a_sort, SocketAddr,
};
use crate::hostname::name_less;
use crate::laws::good_answer_is_read_back;
use crate::model::{
    answered, claimed, consistent, endpoints_of, has_new, has_work, info_of, is_earliest, is_next,
    none_resolved, pinned, pins, removed, stays, tracks, updated, AnswerView, StateView,
};
use crate::time::Instant;

verus! {

/// What is read of a port is what is kept of it: nothing, where it is not there.
pub proof fn what_is_kept_is_read(state: StateView, name: Seq<char>, port: u16)
    ensures
        tracks(state, name, port) <==> state.contains_key(name) && state[name].ports.contains_key(
            port,
        ),
        tracks(state, name, port) ==> {
            &&& endpoints_of(state, name, port) == state[name].ports[port].endpoints
            &&& pins(state, name, port) == state[name].ports[port].pinned
        },
        !tracks(state, name, port) ==> endpoints_of(state, name, port) is None && !pins(
            state,
            name,
            port,
        ),
{
}

/// After a good answer every port of the name has endpoints: the addresses of the answer, each
/// as often as it came, IPv4 first and in ascending order, each of them of the same family and
/// with the same IP address as in the answer, and on the port.
pub proof fn good_answer_reaches_every_port(
    state: StateView,
    name: Seq<char>,
    port: u16,
    now: Instant,
    addrs: Seq<SocketAddr>,
)
    requires
        consistent(state),
        state.contains_key(name),
        state[name].ports.contains_key(port),
    ensures
        answered(state, name, now, Ok(addrs)).contains_key(name),
        answered(state, name, now, Ok(addrs))[name].ports.contains_key(port),
        answered(state, name, now, Ok(addrs))[name].ports[port].endpoints is Some,
        exists|sorted: Seq<SocketAddr>|
            {
                let group = answered(state, name, now, Ok(addrs))[name].ports[port].endpoints->0;
                &&& #[trigger] sorted.to_multiset() == addrs.to_multiset()
                &&& sorted.len() == addrs.len()
                &&& group.len() == addrs.len()
                &&& forall|i: int, j: int|
                    0 <= i < j < sorted.len() ==> match (
                        #[trigger] sorted[i],
                        #[trigger] sorted[j],
                    ) {
                        (SocketAddr::V4 { .. }, SocketAddr::V6 { .. }) => true,
                        (SocketAddr::V6 { .. }, SocketAddr::V4 { .. }) => false,
                        (
                            SocketAddr::V4 { ip: ip1, port: port1 },
                            SocketAddr::V4 { ip: ip2, port: port2 },
                        ) => ip1 * 0x1_0000 + port1 <= ip2 * 0x1_0000 + port2,
                        (
                            SocketAddr::V6 {
                                ip: ip1,
                                port: port1,
                                flowinfo: flow1,
                                scope_id: scope1,
                            },
                            SocketAddr::V6 {
                                ip: ip2,
                                port: port2,
                                flowinfo: flow2,
                                scope_id: scope2,
                            },
                        ) => ((ip1 * 0x1_0000 + port1) * 0x1_0000_0000 + flow1) * 0x1_0000_0000
                            + scope1 <= ((ip2 * 0x1_0000 + port2) * 0x1_0000_0000 + flow2)
                            * 0x1_0000_0000 + scope2,
                    }
                &&& forall|i: int|
                    0 <= i < sorted.len() ==> match (sorted[i], #[trigger] group[i]) {
                        (
                            SocketAddr::V4 { ip: ip1, port: _ },
                            SocketAddr::V4 { ip: ip2, port: on },
                        ) => ip1 == ip2 && on == port,
                        (
                            SocketAddr::V6 { ip: ip1, port: _, flowinfo: flow1, scope_id: scope1 },
                            SocketAddr::V6 { ip: ip2, port: on, flowinfo: flow2, scope_id: scope2 },
                        ) => ip1 == ip2 && flow1 == flow2 && scope1 == scope2 && on == port,
                        _ => false,
                    }
            },
{
    let sorted = sorted_addrs(addrs);
    good_answer_is_read_back(state, name, port, now, addrs);
    what_is_kept_is_read(state, name, port);
    what_is_kept_is_read(answered(state, name, now, Ok(addrs)), name, port);
    sorted_addrs_is_a_sort(addrs);
    sorted_addresses_ascend(addrs);
    every_address_is_on_the_port(sorted, port);
    assert(sorted.to_multiset() == addrs.to_multiset());
}

/// An answer for a name changes nothing about other names and their ports, nor which ports the
/// name has and which of them are pinned. The name is no longer in flight, and was resolved
/// just now.
pub proof fn answer_field_by_field(
    state: StateView,
    name: Seq<char>,
    now: Instant,
    answer: AnswerView,
)
    ensures
        answered(state, name, now, answer).dom() == state.dom(),
        forall|n: Seq<char>|
            n != name && state.contains_key(n) ==> #[trigger] answered(state, name, now, answer)[n]
                == state[n],
        state.contains_key(name) ==> {
            let before = state[name];
            let after = answered(state, name, now, answer)[name];
            &&& !after.in_flight
            &&& after.resolved_at == Some(now)
            &&& after.ports.dom() == before.ports.dom()
            &&& forall|p: u16| #[trigger]
                before.ports.contains_key(p) ==> after.ports[p].pinned == before.ports[p].pinned
        },
{
    assert(answered(state, name, now, answer).dom() =~= state.dom());
    if state.contains_key(name) {
        assert(answered(state, name, now, answer)[name].ports.dom() =~= state[name].ports.dom());
    }
}

/// A failed lookup leaves its error, and the addresses and endpoints as they were.
pub proof fn failure_field_by_field(
    state: StateView,
    name: Seq<char>,
    now: Instant,
    error: Seq<char>,
)
    requires
        state.contains_key(name),
    ensures
        answered(state, name, now, Err(error))[name].last_error == Some(error),
        answered(state, name, now, Err(error))[name].last_addrs == state[name].last_addrs,
        answered(state, name, now, Err(error))[name].ports == state[name].ports,
{
}

/// A good answer leaves no error, and its addresses, in ascending order.
pub proof fn success_field_by_field(
    state: StateView,
    name: Seq<char>,
    now: Instant,
    addrs: Seq<SocketAddr>,
)
    requires
        state.contains_key(name),
    ensures
        answered(state, name, now, Ok(addrs))[name].last_error is None,
        answered(state, name, now, Ok(addrs))[name].last_addrs matches Some(kept)
            && kept.to_multiset() == addrs.to_multiset() && kept == sorted_addrs(addrs),
{
    sorted_addrs_is_a_sort(addrs);
}

/// To pin a port changes nothing about other names, nor about other ports of the name. Whether
/// somebody looks the name up, when it was resolved, to which addresses and with which error
/// all stay as they are; of a name that was not there, nothing is known. The port is pinned.
pub proof fn pin_field_by_field(state: StateView, name: Seq<char>, port: u16)
    ensures
        pinned(state, name, port).dom() == state.dom().insert(name),
        forall|n: Seq<char>|
            n != name && state.contains_key(n) ==> #[trigger] pinned(state, name, port)[n]
                == state[n],
        pinned(state, name, port)[name].ports.contains_key(port),
        pinned(state, name, port)[name].ports[port].pinned,
        state.contains_key(name) ==> {
            let before = state[name];
            let after = pinned(state, name, port)[name];
            &&& after.in_flight == before.in_flight
            &&& after.resolved_at == before.resolved_at
            &&& after.last_addrs == before.last_addrs
            &&& after.last_error == before.last_error
            &&& after.ports.dom() == before.ports.dom().insert(port)
            &&& forall|p: u16| #[trigger]
                before.ports.contains_key(p) && p != port ==> after.ports[p] == before.ports[p]
        },
        !state.contains_key(name) ==> {
            let after = pinned(state, name, port)[name];
            &&& !after.in_flight
            &&& after.resolved_at is None
            &&& after.last_addrs is None
            &&& after.last_error is None
            &&& after.ports.dom() == Set::<u16>::empty().insert(port)
        },
{
    let after = pinned(state, name, port);
    assert(after.dom() =~= state.dom().insert(name));
    if state.contains_key(name) {
        assert(after[name].ports.dom() =~= state[name].ports.dom().insert(port));
    } else {
        assert(after[name].ports.dom() =~= Set::<u16>::empty().insert(port));
    }
}

/// A port that was pinned has the addresses of the last good answer, each of the same family
/// and with the same IP address, and on the port. Where there was none yet, it has the
/// endpoints that it had: none at all, if the port is new.
pub proof fn pinned_port_field_by_field(state: StateView, name: Seq<char>, port: u16)
    ensures
        !state.contains_key(name) || (state[name].last_addrs is None
            && !state[name].ports.contains_key(port)) ==> pinned(
            state,
            name,
            port,
        )[name].ports[port].endpoints is None,
        state.contains_key(name) && state[name].last_addrs is None
            && state[name].ports.contains_key(port) ==> pinned(
            state,
            name,
            port,
        )[name].ports[port].endpoints == state[name].ports[port].endpoints,
        state.contains_key(name) && state[name].last_addrs is Some ==> {
            let addrs = state[name].last_addrs->0;
            &&& pinned(state, name, port)[name].ports[port].endpoints matches Some(group)
            &&& group.len() == addrs.len()
            &&& forall|i: int|
                0 <= i < addrs.len() ==> match (addrs[i], #[trigger] group[i]) {
                    (
                        SocketAddr::V4 { ip: ip1, port: _ },
                        SocketAddr::V4 { ip: ip2, port: on },
                    ) => ip1 == ip2 && on == port,
                    (
                        SocketAddr::V6 { ip: ip1, port: _, flowinfo: flow1, scope_id: scope1 },
                        SocketAddr::V6 { ip: ip2, port: on, flowinfo: flow2, scope_id: scope2 },
                    ) => ip1 == ip2 && flow1 == flow2 && scope1 == scope2 && on == port,
                    _ => false,
                }
        },
{
    if state.contains_key(name) && state[name].last_addrs is Some {
        let addrs = state[name].last_addrs->0;
        every_address_is_on_the_port(addrs, port);
        assert(pinned(state, name, port)[name].ports[port].endpoints == Some(on_port(addrs, port)));
    }
}

/// To remove a port changes nothing about other names, nor about other ports of the name. The
/// name is gone if it has no other port; otherwise all else that is known of it stays.
pub proof fn remove_field_by_field(state: StateView, name: Seq<char>, port: u16)
    ensures
        forall|n: Seq<char>|
            n != name ==> #[trigger] removed(state, name, port).contains_key(n)
                == state.contains_key(n),
        forall|n: Seq<char>|
            n != name && state.contains_key(n) ==> #[trigger] removed(state, name, port)[n]
                == state[n],
        !state.contains_key(name) ==> removed(state, name, port) == state,
        removed(state, name, port).contains_key(name) <==> state.contains_key(name) && exists|
            p: u16,
        |
            p != port && #[trigger] state[name].ports.contains_key(p),
        removed(state, name, port).contains_key(name) ==> {
            let before = state[name];
            let after = removed(state, name, port)[name];
            &&& after.in_flight == before.in_flight
            &&& after.resolved_at == before.resolved_at
            &&& after.last_addrs == before.last_addrs
            &&& after.last_error == before.last_error
            &&& !after.ports.contains_key(port)
            &&& forall|p: u16|
                p != port ==> #[trigger] after.ports.contains_key(p) == before.ports.contains_key(p)
            &&& forall|p: u16| #[trigger]
                before.ports.contains_key(p) && p != port ==> after.ports[p] == before.ports[p]
        },
{
    if state.contains_key(name) {
        let ports = state[name].ports.remove(port);
        if exists|p: u16| p != port && #[trigger] state[name].ports.contains_key(p) {
            let p = choose|p: u16| p != port && #[trigger] state[name].ports.contains_key(p);
            assert(ports.dom().contains(p));
            assert(!(ports =~= Map::empty()));
        } else {
            assert(ports =~= Map::empty());
        }
    }
}

/// After the set of names was replaced, a port is there if it was asked for or was there and
/// pinned. A port that was there before is as it was, one that was not is not pinned and has
/// no endpoints. Of a name that was there everything else stays, of one that was not nothing
/// is known.
pub proof fn update_field_by_field(
    state: StateView,
    pairs: Seq<(Seq<char>, u16)>,
    name: Seq<char>,
    port: u16,
)
    ensures
        ({
            let there = updated(state, pairs).contains_key(name) && updated(
                state,
                pairs,
            )[name].ports.contains_key(port);
            let known = state.contains_key(name) && state[name].ports.contains_key(port);
            &&& there <==> pairs.contains((name, port)) || (known && state[name].ports[port].pinned)
            &&& there && known ==> updated(state, pairs)[name].ports[port]
                == state[name].ports[port]
            &&& there && !known ==> {
                &&& !updated(state, pairs)[name].ports[port].pinned
                &&& updated(state, pairs)[name].ports[port].endpoints is None
            }
        }),
        updated(state, pairs).contains_key(name) ==> exists|p: u16| #[trigger]
            updated(state, pairs)[name].ports.contains_key(p),
        updated(state, pairs).contains_key(name) ==> {
            let after = updated(state, pairs)[name];
            if state.contains_key(name) {
                let before = state[name];
                &&& after.in_flight == before.in_flight
                &&& after.resolved_at == before.resolved_at
                &&& after.last_addrs == before.last_addrs
                &&& after.last_error == before.last_error
            } else {
                &&& !after.in_flight
                &&& after.resolved_at is None
                &&& after.last_addrs is None
                &&& after.last_error is None
            }
        },
{
    let next = updated(state, pairs);
    if stays(state, pairs, name, port) {
        assert(next.contains_key(name));
        assert(next[name].ports.contains_key(port));
    }
    if next.contains_key(name) {
        let p = choose|p: u16| #[trigger] stays(state, pairs, name, p);
        assert(next[name].ports.contains_key(p));
    }
}

/// A claim puts one name in flight and changes nothing else.
pub proof fn claim_field_by_field(state: StateView, name: Seq<char>)
    requires
        state.contains_key(name),
    ensures
        claimed(state, name).dom() == state.dom(),
        forall|n: Seq<char>|
            n != name && state.contains_key(n) ==> #[trigger] claimed(state, name)[n] == state[n],
        claimed(state, name)[name].in_flight,
        claimed(state, name)[name].ports == state[name].ports,
        claimed(state, name)[name].resolved_at == state[name].resolved_at,
        claimed(state, name)[name].last_addrs == state[name].last_addrs,
        claimed(state, name)[name].last_error == state[name].last_error,
{
    assert(claimed(state, name).dom() =~= state.dom());
}

/// There is work exactly if some name is not in flight and either has never been resolved,
/// whatever the time, or was resolved no later than `before`.
pub proof fn work_field_by_field(state: StateView, before: Instant)
    ensures
        has_work(state, before) <==> exists|n: Seq<char>| #[trigger]
            state.contains_key(n) && !state[n].in_flight && (state[n].resolved_at is None
                || state[n].resolved_at->0.nanos <= before.nanos),
{
    if exists|n: Seq<char>| #[trigger]
        state.contains_key(n) && !state[n].in_flight && (state[n].resolved_at is None
            || state[n].resolved_at->0.nanos <= before.nanos) {
        let n = choose|n: Seq<char>| #[trigger]
            state.contains_key(n) && !state[n].in_flight && (state[n].resolved_at is None
                || state[n].resolved_at->0.nanos <= before.nanos);
        assert(state[n].is_new() || state[n].is_due(before));
    }
}

/// To subscribe to a name that was never resolved, and that nobody looks up, leaves it to be
/// looked up, at whatever time, be the port new or not.
pub proof fn subscribed_name_is_to_be_looked_up(
    state: StateView,
    name: Seq<char>,
    port: u16,
    before: Instant,
)
    requires
        state.contains_key(name) ==> !state[name].in_flight && state[name].resolved_at is None,
    ensures
        has_work(pinned(state, name, port), before),
{
    let next = pinned(state, name, port);
    pin_field_by_field(state, name, port);
    work_field_by_field(next, before);
    assert(next.dom().contains(name));
    assert(next.contains_key(name) && !next[name].in_flight && next[name].resolved_at is None);
}

/// The next name is not in flight. If some name that is not in flight has never been resolved,
/// the next name is the first of those, whatever the time. Otherwise it is one that was
/// resolved no later than `before`, and of these none was resolved after it, and none that was
/// resolved at the same time stands before it.
pub proof fn next_field_by_field(state: StateView, before: Instant, name: Seq<char>)
    ensures
        is_next(state, before, name) <==> {
            &&& state.contains_key(name)
            &&& !state[name].in_flight
            &&& if exists|n: Seq<char>| #[trigger]
                state.contains_key(n) && !state[n].in_flight && state[n].resolved_at is None {
                &&& state[name].resolved_at is None
                &&& forall|n: Seq<char>| #[trigger]
                    state.contains_key(n) && !state[n].in_flight && state[n].resolved_at is None
                        && n != name ==> name_less(name, n)
            } else {
                &&& state[name].resolved_at is Some
                &&& state[name].resolved_at->0.nanos <= before.nanos
                &&& forall|n: Seq<char>| #[trigger]
                    state.contains_key(n) && !state[n].in_flight && n != name
                        && state[n].resolved_at->0.nanos <= before.nanos
                        && state[n].resolved_at->0.nanos >= state[name].resolved_at->0.nanos
                        ==> state[n].resolved_at->0.nanos == state[name].resolved_at->0.nanos
                        && name_less(name, n)
            }
        },
{
    assert(has_new(state) <==> exists|n: Seq<char>| #[trigger]
        state.contains_key(n) && !state[n].in_flight && state[n].resolved_at is None) by {
        if exists|n: Seq<char>| #[trigger]
            state.contains_key(n) && !state[n].in_flight && state[n].resolved_at is None {
            let n = choose|n: Seq<char>| #[trigger]
                state.contains_key(n) && !state[n].in_flight && state[n].resolved_at is None;
            assert(state[n].is_new());
        }
    }
}

/// The earliest time is the time at which some name was resolved, and no name was resolved
/// before it.
pub proof fn earliest_field_by_field(state: StateView, t: Instant)
    ensures
        is_earliest(state, t) ==> exists|n: Seq<char>| #[trigger]
            state.contains_key(n) && state[n].resolved_at == Some(t),
        is_earliest(state, t) <== (exists|n: Seq<char>| #[trigger]
            state.contains_key(n) && state[n].resolved_at == Some(t)) && forall|n: Seq<char>|
            #[trigger]
            state.contains_key(n) && state[n].resolved_at is Some
                ==> state[n].resolved_at->0.nanos >= t.nanos,
        is_earliest(state, t) ==> forall|n: Seq<char>| #[trigger]
            state.contains_key(n) && state[n].resolved_at is Some
                ==> state[n].resolved_at->0.nanos >= t.nanos,
        none_resolved(state) <==> forall|n: Seq<char>| #[trigger]
            state.contains_key(n) ==> state[n].resolved_at is None,
{
}

/// Of a name that is not there, nothing is known.
pub proof fn unknown_name_field_by_field(state: StateView, name: Seq<char>)
    ensures
        state.contains_key(name) ==> info_of(state, name) == state[name],
        !state.contains_key(name) ==> {
            let info = info_of(state, name);
            &&& info.ports.dom() == Set::<u16>::empty()
            &&& !info.in_flight
            &&& info.resolved_at is None
            &&& info.last_addrs is None
            &&& info.last_error is None
        },
{
    if !state.contains_key(name) {
        assert(info_of(state, name).ports.dom() =~= Set::<u16>::empty());
    }
}

} // verus!
