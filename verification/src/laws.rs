//! What holds of the resolver as a whole.
use vstd::prelude::*;

use crate::addr::{
    on_port, sorted_addrs, sorted_addrs_forgets_the_order, sorted_addrs_is_a_sort, SocketAddr,
};
use crate::hostname::{name_less, Hostname};
use crate::model::{
    agree_on, answered, claimed, consistent, endpoints_of, has_new, has_work, info_of,
    is_earliest, is_next, pinned, pins, ports_asked, removed, stays, tracks, updated, AnswerView,
    NameView, StateView,
};
use crate::ord_map::OrdKey;
use crate::time::Instant;

verus! {

/// An answer keeps the state consistent.
pub proof fn answer_keeps_consistency(
    state: StateView,
    name: Seq<char>,
    now: Instant,
    answer: AnswerView,
)
    requires
        consistent(state),
    ensures
        consistent(answered(state, name, now, answer)),
{
    let next = answered(state, name, now, answer);
    assert forall|n: Seq<char>| #[trigger] next.contains_key(n) implies next[n].consistent() by {
        assert(state.contains_key(n));
        if n == name {
            assert(state[n].consistent());
            let p = choose|p: u16| #[trigger] state[n].ports.contains_key(p);
            assert(next[n].ports.contains_key(p));
            if let Ok(addrs) = answer {
                sorted_addrs_is_a_sort(addrs);
            }
        }
    }
}

/// A claim keeps the state consistent.
pub proof fn claim_keeps_consistency(state: StateView, name: Seq<char>)
    requires
        consistent(state),
        state.contains_key(name),
    ensures
        consistent(claimed(state, name)),
{
    let next = claimed(state, name);
    assert forall|n: Seq<char>| #[trigger] next.contains_key(n) implies next[n].consistent() by {
        assert(state.contains_key(n));
        assert(next[n].ports == state[n].ports);
    }
}

/// To pin a port keeps the state consistent.
pub proof fn pin_keeps_consistency(state: StateView, name: Seq<char>, port: u16)
    requires
        consistent(state),
    ensures
        consistent(pinned(state, name, port)),
{
    let next = pinned(state, name, port);
    assert forall|n: Seq<char>| #[trigger] next.contains_key(n) implies next[n].consistent() by {
        if n == name {
            assert(next[n].ports.contains_key(port));
            assert(state.contains_key(n) ==> state[n].consistent());
        } else {
            assert(state.contains_key(n));
        }
    }
}

/// To remove a port keeps the state consistent.
pub proof fn remove_keeps_consistency(state: StateView, name: Seq<char>, port: u16)
    requires
        consistent(state),
    ensures
        consistent(removed(state, name, port)),
{
    let next = removed(state, name, port);
    assert forall|n: Seq<char>| #[trigger] next.contains_key(n) implies next[n].consistent() by {
        assert(state.contains_key(n));
        if n == name {
            let ports = state[n].ports.remove(port);
            if forall|p: u16| !(#[trigger] ports.contains_key(p)) {
                assert(ports =~= Map::empty());
            }
            let p = choose|p: u16| #[trigger] ports.contains_key(p);
            assert(next[n].ports.contains_key(p));
            assert(state[n].consistent());
        }
    }
}

/// To replace the set of names keeps the state consistent.
pub proof fn update_keeps_consistency(state: StateView, pairs: Seq<(Seq<char>, u16)>)
    requires
        consistent(state),
    ensures
        consistent(updated(state, pairs)),
{
    let next = updated(state, pairs);
    assert forall|n: Seq<char>| #[trigger] next.contains_key(n) implies next[n].consistent() by {
        let p = choose|p: u16| #[trigger] stays(state, pairs, n, p);
        assert(next[n].ports.contains_key(p));
        assert(state.contains_key(n) ==> state[n].consistent());
    }
}

/// A good answer is read back on every port of its name: its addresses, in order and on the
/// port asked for, whatever there was before.
pub proof fn good_answer_is_read_back(
    state: StateView,
    name: Seq<char>,
    port: u16,
    now: Instant,
    addrs: Seq<SocketAddr>,
)
    requires
        consistent(state),
        tracks(state, name, port),
    ensures
        endpoints_of(answered(state, name, now, Ok(addrs)), name, port) == Some(
            on_port(sorted_addrs(addrs), port),
        ),
{
    assert(state[name].consistent());
}

/// The last good answer counts: of any answer before it nothing is left.
pub proof fn last_good_answer_counts(
    state: StateView,
    name: Seq<char>,
    port: u16,
    first_at: Instant,
    first: AnswerView,
    last_at: Instant,
    last: Seq<SocketAddr>,
)
    requires
        consistent(state),
        tracks(state, name, port),
    ensures
        endpoints_of(
            answered(answered(state, name, first_at, first), name, last_at, Ok(last)),
            name,
            port,
        ) == Some(on_port(sorted_addrs(last), port)),
{
    answer_keeps_consistency(state, name, first_at, first);
    answer_stays_with_its_name(state, name, first_at, first);
    assert(tracks(answered(state, name, first_at, first), name, port));
    good_answer_is_read_back(answered(state, name, first_at, first), name, port, last_at, last);
}

/// A pinned port of a name that has had a good answer has the addresses of the last one.
pub proof fn pinned_port_has_endpoints(
    state: StateView,
    name: Seq<char>,
    port: u16,
    addrs: Seq<SocketAddr>,
)
    requires
        consistent(state),
        pins(state, name, port),
        state[name].last_addrs == Some(addrs),
    ensures
        endpoints_of(state, name, port) == Some(on_port(addrs, port)),
{
    assert(state[name].consistent());
}

/// The order in which the addresses of an answer come does not matter.
pub proof fn answers_forget_the_order(
    state: StateView,
    name: Seq<char>,
    now: Instant,
    a: Seq<SocketAddr>,
    b: Seq<SocketAddr>,
)
    requires
        a.to_multiset() == b.to_multiset(),
    ensures
        answered(state, name, now, Ok(a)) == answered(state, name, now, Ok(b)),
{
    sorted_addrs_forgets_the_order(a, b);
}

/// A failed lookup takes no endpoints away and brings none.
pub proof fn failed_lookup_keeps_endpoints(
    state: StateView,
    name: Seq<char>,
    now: Instant,
    error: Seq<char>,
)
    ensures
        forall|n: Seq<char>, p: u16|
            #[trigger] endpoints_of(answered(state, name, now, Err(error)), n, p) == endpoints_of(
                state,
                n,
                p,
            ),
{
}

/// A good answer like the last good one changes no endpoints that are there.
pub proof fn repeated_answer_keeps_endpoints(
    state: StateView,
    name: Seq<char>,
    now: Instant,
    addrs: Seq<SocketAddr>,
)
    requires
        state.contains_key(name),
        state[name].last_addrs == Some(sorted_addrs(addrs)),
    ensures
        forall|n: Seq<char>, p: u16|
            endpoints_of(state, n, p) is Some ==> #[trigger] endpoints_of(
                answered(state, name, now, Ok(addrs)),
                n,
                p,
            ) == endpoints_of(state, n, p),
{
}

/// An answer neither adds nor drops a name or a port, and changes nothing about any other
/// name.
pub proof fn answer_stays_with_its_name(
    state: StateView,
    name: Seq<char>,
    now: Instant,
    answer: AnswerView,
)
    ensures
        answered(state, name, now, answer).dom() == state.dom(),
        forall|n: Seq<char>, p: u16|
            #[trigger] tracks(answered(state, name, now, answer), n, p) == tracks(state, n, p),
        forall|n: Seq<char>|
            n != name ==> #[trigger] info_of(answered(state, name, now, answer), n) == info_of(
                state,
                n,
            ),
{
    assert(answered(state, name, now, answer).dom() =~= state.dom());
}

/// An answer gives the name free: it can be claimed again as soon as answers of that time
/// are due.
pub proof fn answer_frees_the_name(
    state: StateView,
    name: Seq<char>,
    now: Instant,
    answer: AnswerView,
    before: Instant,
)
    requires
        state.contains_key(name),
    ensures
        answered(state, name, now, answer)[name].is_due(before) <==> now.nanos <= before.nanos,
        !answered(state, name, now, answer)[name].is_new(),
{
}

/// A name that was claimed is not handed out again.
pub proof fn claimed_name_is_not_next(state: StateView, name: Seq<char>, before: Instant)
    ensures
        !is_next(claimed(state, name), before, name),
{
}

/// A claim lasts until there is an answer or the name is forgotten: neither a change of the
/// set of names, nor pins, removals and other claims, nor answers for other names end it.
pub proof fn claim_lasts(state: StateView, name: Seq<char>)
    requires
        state.contains_key(name),
        state[name].in_flight,
    ensures
        forall|pairs: Seq<(Seq<char>, u16)>| #[trigger]
            updated(state, pairs).contains_key(name) ==> updated(state, pairs)[name].in_flight,
        forall|n: Seq<char>, p: u16| (#[trigger] pinned(state, n, p))[name].in_flight,
        forall|n: Seq<char>, p: u16| #[trigger]
            removed(state, n, p).contains_key(name) ==> removed(state, n, p)[name].in_flight,
        forall|n: Seq<char>| (#[trigger] claimed(state, n))[name].in_flight,
        forall|n: Seq<char>, now: Instant, answer: AnswerView|
            n != name ==> (#[trigger] answered(state, n, now, answer))[name].in_flight,
{
}

/// A claim changes nothing that is read: no name, port or endpoint.
pub proof fn claim_keeps_endpoints(state: StateView, name: Seq<char>)
    requires
        state.contains_key(name),
    ensures
        claimed(state, name).dom() == state.dom(),
        forall|n: Seq<char>, p: u16|
            #[trigger] endpoints_of(claimed(state, name), n, p) == endpoints_of(state, n, p),
        forall|n: Seq<char>, p: u16|
            #[trigger] tracks(claimed(state, name), n, p) == tracks(state, n, p),
{
    assert(claimed(state, name).dom() =~= state.dom());
}

/// There is at most one next name.
pub proof fn next_is_unique(state: StateView, before: Instant, a: Seq<char>, b: Seq<char>)
    requires
        is_next(state, before, a),
        is_next(state, before, b),
    ensures
        a == b,
{
    if a != b {
        assert(name_less(a, b) && name_less(b, a));
        <Hostname as OrdKey>::key_order(a, b, a);
    }
}

/// The next name is there to be claimed, and a name that was never looked up goes before
/// every other.
pub proof fn next_is_work(state: StateView, before: Instant, name: Seq<char>)
    requires
        is_next(state, before, name),
    ensures
        has_work(state, before),
        !state[name].in_flight,
        has_new(state) ==> state[name].resolved_at is None,
{
}

/// Once every name has been looked up, nothing is to be done for a time before the earliest
/// of the last answers.
pub proof fn nothing_due_before_the_earliest(state: StateView, earliest: Instant, before: Instant)
    requires
        is_earliest(state, earliest),
        !has_new(state),
        before.nanos < earliest.nanos,
    ensures
        !has_work(state, before),
{
}

/// There is at most one earliest time.
pub proof fn earliest_is_unique(state: StateView, t: Instant, u: Instant)
    requires
        is_earliest(state, t),
        is_earliest(state, u),
    ensures
        t == u,
{
    let n = choose|n: Seq<char>| #[trigger]
        state.contains_key(n) && state[n].resolved_at == Some(t);
    let m = choose|m: Seq<char>| #[trigger]
        state.contains_key(m) && state[m].resolved_at == Some(u);
    assert(u.nanos <= t.nanos && t.nanos <= u.nanos);
}

/// After the set of names was replaced, the resolver keeps track of what was asked for and
/// of what is pinned, and of nothing else.
pub proof fn update_tracks_the_asked_and_the_pinned(
    state: StateView,
    pairs: Seq<(Seq<char>, u16)>,
    name: Seq<char>,
    port: u16,
)
    ensures
        tracks(updated(state, pairs), name, port) <==> pairs.contains((name, port)) || pins(
            state,
            name,
            port,
        ),
{
    if stays(state, pairs, name, port) {
        assert(updated(state, pairs).contains_key(name));
    }
}

/// What is known of a port that stays is kept, and so is what is known of its name. A port
/// that comes has no endpoints yet.
pub proof fn update_keeps_what_is_known(
    state: StateView,
    pairs: Seq<(Seq<char>, u16)>,
    name: Seq<char>,
    port: u16,
)
    requires
        tracks(updated(state, pairs), name, port),
    ensures
        endpoints_of(updated(state, pairs), name, port) == endpoints_of(state, name, port),
        pins(updated(state, pairs), name, port) == pins(state, name, port),
        updated(state, pairs)[name] == (NameView {
            ports: updated(state, pairs)[name].ports,
            ..info_of(state, name)
        }),
{
}

/// A pinned port outlasts every change of the set of names, with its endpoints.
pub proof fn pinned_port_outlasts_updates(
    state: StateView,
    pairs: Seq<(Seq<char>, u16)>,
    name: Seq<char>,
    port: u16,
)
    requires
        pins(state, name, port),
    ensures
        pins(updated(state, pairs), name, port),
        endpoints_of(updated(state, pairs), name, port) == endpoints_of(state, name, port),
{
    assert(stays(state, pairs, name, port));
    update_keeps_what_is_known(state, pairs, name, port);
}

/// Two lists that ask for the same ports of the same names are as good as each other, in
/// whatever order and however often they ask.
pub proof fn update_forgets_the_order(
    state: StateView,
    a: Seq<(Seq<char>, u16)>,
    b: Seq<(Seq<char>, u16)>,
)
    requires
        a.to_set() == b.to_set(),
    ensures
        updated(state, a) == updated(state, b),
{
    assert forall|n: Seq<char>, p: u16| a.contains((n, p)) == b.contains((n, p)) by {
        assert(a.to_set().contains((n, p)) == a.contains((n, p)));
        assert(b.to_set().contains((n, p)) == b.contains((n, p)));
    }
    assert forall|n: Seq<char>| ports_asked(a, n) == #[trigger] ports_asked(b, n) by {
        assert(ports_asked(a, n) =~= ports_asked(b, n));
    }
    assert forall|n: Seq<char>| #[trigger] updated(state, a).dom().contains(n) == updated(
        state,
        b,
    ).dom().contains(n) by {
        if updated(state, a).contains_key(n) {
            let p = choose|p: u16| #[trigger] stays(state, a, n, p);
            assert(stays(state, b, n, p));
        }
        if updated(state, b).contains_key(n) {
            let p = choose|p: u16| #[trigger] stays(state, b, n, p);
            assert(stays(state, a, n, p));
        }
    }
    assert(updated(state, a) =~= updated(state, b));
}

/// To set the same names twice is to set them once.
pub proof fn update_twice_is_once(state: StateView, pairs: Seq<(Seq<char>, u16)>)
    ensures
        updated(updated(state, pairs), pairs) == updated(state, pairs),
{
    let once = updated(state, pairs);
    let twice = updated(once, pairs);
    assert forall|n: Seq<char>, p: u16| #[trigger] stays(once, pairs, n, p) == stays(
        state,
        pairs,
        n,
        p,
    ) by {
        update_tracks_the_asked_and_the_pinned(state, pairs, n, p);
    }
    assert forall|n: Seq<char>| #[trigger] twice.dom().contains(n) == once.dom().contains(n) by {
        if once.contains_key(n) {
            let p = choose|p: u16| #[trigger] stays(state, pairs, n, p);
            assert(stays(once, pairs, n, p));
        }
        if twice.contains_key(n) {
            let p = choose|p: u16| #[trigger] stays(once, pairs, n, p);
            assert(stays(state, pairs, n, p));
        }
    }
    assert forall|n: Seq<char>| #[trigger] twice.dom().contains(n) implies twice[n] == once[n] by {
        assert(twice[n].ports =~= once[n].ports);
    }
    assert(twice =~= once);
}

/// A name that one set of names drops starts anew if a later set asks for it: no claim, no
/// answer and no error are left of the time before.
pub proof fn dropped_name_starts_anew(
    state: StateView,
    first: Seq<(Seq<char>, u16)>,
    second: Seq<(Seq<char>, u16)>,
    name: Seq<char>,
)
    requires
        forall|p: u16| !(#[trigger] stays(state, first, name, p)),
    ensures
        !updated(state, first).contains_key(name),
        updated(updated(state, first), second).contains_key(name) ==> {
            let info = updated(updated(state, first), second)[name];
            &&& info.is_new()
            &&& info.last_addrs is None
            &&& info.last_error is None
        },
        forall|p: u16|
            #[trigger] endpoints_of(updated(updated(state, first), second), name, p) is None,
{
}

/// An answer that comes after its name was dropped does nothing.
pub proof fn late_answer_is_dropped(
    state: StateView,
    pairs: Seq<(Seq<char>, u16)>,
    name: Seq<char>,
    now: Instant,
    answer: AnswerView,
)
    requires
        forall|p: u16| !(#[trigger] stays(state, pairs, name, p)),
    ensures
        answered(updated(state, pairs), name, now, answer) == updated(state, pairs),
{
}

/// To pin a port twice is to pin it once.
pub proof fn pin_twice_is_once(state: StateView, name: Seq<char>, port: u16)
    ensures
        pinned(pinned(state, name, port), name, port) == pinned(state, name, port),
{
    let once = pinned(state, name, port);
    let twice = pinned(once, name, port);
    assert(twice[name].ports =~= once[name].ports);
    assert(twice =~= once);
}

/// A port that was pinned is there. Where its name has had a good answer it has endpoints at
/// once, and nothing else has changed.
pub proof fn pin_is_read_back(state: StateView, name: Seq<char>, port: u16)
    ensures
        pins(pinned(state, name, port), name, port),
        info_of(state, name).last_addrs matches Some(addrs) ==> endpoints_of(
            pinned(state, name, port),
            name,
            port,
        ) == Some(on_port(addrs, port)),
        forall|n: Seq<char>, p: u16|
            (n, p) != (name, port) ==> #[trigger] agree_on(
                state,
                pinned(state, name, port),
                n,
                p,
            ),
{
}

/// A port that was removed is gone, and nothing else has changed.
pub proof fn remove_forgets_one_port(state: StateView, name: Seq<char>, port: u16)
    ensures
        !tracks(removed(state, name, port), name, port),
        forall|n: Seq<char>, p: u16|
            (n, p) != (name, port) ==> #[trigger] agree_on(
                state,
                removed(state, name, port),
                n,
                p,
            ),
{
    let next = removed(state, name, port);
    assert forall|n: Seq<char>, p: u16| (n, p) != (name, port) implies #[trigger] agree_on(
        state,
        next,
        n,
        p,
    ) by {
        if n == name && tracks(state, n, p) {
            assert(state[n].ports.remove(port).contains_key(p));
        }
    }
}

/// To remove a port undoes the pin that brought it.
pub proof fn remove_undoes_pin(state: StateView, name: Seq<char>, port: u16)
    requires
        consistent(state),
        !tracks(state, name, port),
    ensures
        removed(pinned(state, name, port), name, port) == state,
{
    let mid = pinned(state, name, port);
    let ports = mid[name].ports.remove(port);
    assert(ports =~= info_of(state, name).ports);
    if state.contains_key(name) {
        assert(state[name].consistent());
        let p = choose|p: u16| #[trigger] state[name].ports.contains_key(p);
        assert(ports.contains_key(p));
    }
    assert(removed(mid, name, port) =~= state);
}

/// Whoever waits for endpoints hears of them. An answer is always announced, and so is a new
/// port; no other operation brings endpoints, but for a pin on a port that is there already,
/// without endpoints, though its name has had a good answer: that one is left out.
pub proof fn endpoints_do_not_appear_unannounced(
    state: StateView,
    name: Seq<char>,
    port: u16,
    n: Seq<char>,
    p: u16,
)
    requires
        consistent(state),
        tracks(state, name, port) && state[name].last_addrs is Some ==> endpoints_of(
            state,
            name,
            port,
        ) is Some,
        endpoints_of(state, n, p) is None,
    ensures
        endpoints_of(pinned(state, name, port), n, p) is Some ==> !tracks(state, name, port),
        endpoints_of(removed(state, name, port), n, p) is None,
        forall|pairs: Seq<(Seq<char>, u16)>|
            #[trigger] endpoints_of(updated(state, pairs), n, p) is None,
        state.contains_key(name) ==> endpoints_of(claimed(state, name), n, p) is None,
{
    pin_is_read_back(state, name, port);
    remove_forgets_one_port(state, name, port);
    assert(agree_on(state, pinned(state, name, port), n, p) || (n, p) == (name, port));
    assert(agree_on(state, removed(state, name, port), n, p) || (n, p) == (name, port));
}

} // verus!
