//! What the resolver knows of names and ports, and how each operation changes it.
use vstd::prelude::*;
use vstd::relations::sorted_by;

use crate::addr::{addr_order, on_port, sorted_addrs, SocketAddr};
use crate::hostname::name_less;
use crate::time::Instant;

verus! {

/// What is known of one port of a name.
#[verifier::ext_equal]
pub struct PortView {
    /// Whether the port stays when the set of names is replaced.
    pub pinned: bool,
    /// The addresses that serve the name on this port, once there was an answer.
    pub endpoints: Option<Seq<SocketAddr>>,
}

/// What is known of one name.
#[verifier::ext_equal]
pub struct NameView {
    pub ports: Map<u16, PortView>,
    /// Whether a worker has claimed the name and has not answered yet.
    pub in_flight: bool,
    /// When the last answer came.
    pub resolved_at: Option<Instant>,
    /// The addresses of the last answer that had any to give, in ascending order.
    pub last_addrs: Option<Seq<SocketAddr>>,
    /// The error, where the last answer was one.
    pub last_error: Option<Seq<char>>,
}

/// What is known of every name.
pub type StateView = Map<Seq<char>, NameView>;

/// The answer to a lookup: addresses, or an error.
pub type AnswerView = Result<Seq<SocketAddr>, Seq<char>>;

impl PortView {
    pub open spec fn new() -> PortView {
        PortView { pinned: false, endpoints: None }
    }

    pub open spec fn set_addrs(self, port: u16, addrs: Seq<SocketAddr>) -> PortView {
        PortView { endpoints: Some(on_port(addrs, port)), ..self }
    }

    /// The port with these addresses, unless it has endpoints already.
    pub open spec fn fill_addrs(self, port: u16, addrs: Seq<SocketAddr>) -> PortView {
        if self.endpoints is Some {
            self
        } else {
            self.set_addrs(port, addrs)
        }
    }
}

impl NameView {
    pub open spec fn new() -> NameView {
        NameView {
            ports: Map::empty(),
            in_flight: false,
            resolved_at: None,
            last_addrs: None,
            last_error: None,
        }
    }

    /// The name after an answer that came at `now`.
    ///
    /// The time is always kept. An error is kept beside the addresses of the last good answer.
    /// Addresses are put in order. They become the endpoints of every port; where they are those
    /// of the last good answer, a port that has endpoints has them already and stays as it is.
    pub open spec fn merge_answer(self, now: Instant, answer: AnswerView) -> NameView {
        match answer {
            Ok(addrs) => {
                let sorted = sorted_addrs(addrs);
                if self.last_addrs == Some(sorted) {
                    NameView {
                        resolved_at: Some(now),
                        last_error: None,
                        ports: Map::new(
                            |p: u16| self.ports.contains_key(p),
                            |p: u16| self.ports[p].fill_addrs(p, sorted),
                        ),
                        ..self
                    }
                } else {
                    NameView {
                        resolved_at: Some(now),
                        last_error: None,
                        last_addrs: Some(sorted),
                        ports: Map::new(
                            |p: u16| self.ports.contains_key(p),
                            |p: u16| self.ports[p].set_addrs(p, sorted),
                        ),
                        ..self
                    }
                }
            },
            Err(e) => NameView { resolved_at: Some(now), last_error: Some(e), ..self },
        }
    }

    /// The name with a port pinned. If the name has had a good answer, the port gets its
    /// endpoints from it at once.
    pub open spec fn pin(self, port: u16) -> NameView {
        let known = if self.ports.contains_key(port) {
            self.ports[port]
        } else {
            PortView::new()
        };
        let kept = PortView { pinned: true, ..known };
        let info = match self.last_addrs {
            Some(addrs) => kept.set_addrs(port, addrs),
            None => kept,
        };
        NameView { ports: self.ports.insert(port, info), ..self }
    }

    /// Whether port `p` stays, or comes, when `new` is the set of ports asked for.
    pub open spec fn keeps(self, new: Set<u16>, p: u16) -> bool {
        new.contains(p) || (self.ports.contains_key(p) && self.ports[p].pinned)
    }

    /// The name with the ports in `new` and those that are pinned, and no others.
    pub open spec fn set_ports(self, new: Set<u16>) -> NameView {
        NameView {
            ports: Map::new(
                |p: u16| self.keeps(new, p),
                |p: u16|
                    if self.ports.contains_key(p) {
                        self.ports[p]
                    } else {
                        PortView::new()
                    },
            ),
            ..self
        }
    }

    /// Nobody is looking the name up, and nobody ever has.
    pub open spec fn is_new(self) -> bool {
        !self.in_flight && self.resolved_at is None
    }

    /// Nobody is looking the name up, and its last answer came no later than `before`.
    pub open spec fn is_due(self, before: Instant) -> bool {
        !self.in_flight && (self.resolved_at matches Some(t) && t.nanos <= before.nanos)
    }

    /// What holds of every name between operations.
    pub open spec fn consistent(self) -> bool {
        &&& exists|p: u16| #[trigger] self.ports.contains_key(p)
        &&& self.last_addrs matches Some(addrs) ==> sorted_by(addrs, addr_order())
        &&& self.resolved_at is None ==> self.last_addrs is None && self.last_error is None
        &&& forall|p: u16| #[trigger]
            self.ports.contains_key(p) ==> (self.ports[p].endpoints matches Some(group) ==> (
            self.last_addrs matches Some(addrs) && group == on_port(addrs, p)))
        &&& forall|p: u16| #[trigger]
            self.ports.contains_key(p) && self.ports[p].pinned && self.last_addrs is Some
                ==> self.ports[p].endpoints is Some
    }
}

/// What holds of every state between operations: each name has a port, the addresses of
/// its last good answer stand in order, only a name that was resolved has an answer, and the
/// endpoints of a port, where it has any, are the addresses of the last good answer on this
/// port. A pinned port of a name that has had a good answer has endpoints.
pub open spec fn consistent(state: StateView) -> bool {
    forall|n: Seq<char>| #[trigger] state.contains_key(n) ==> state[n].consistent()
}

/// Whether the resolver keeps track of this name on this port.
pub open spec fn tracks(state: StateView, name: Seq<char>, port: u16) -> bool {
    state.contains_key(name) && state[name].ports.contains_key(port)
}

/// Whether this port of this name is pinned.
pub open spec fn pins(state: StateView, name: Seq<char>, port: u16) -> bool {
    tracks(state, name, port) && state[name].ports[port].pinned
}

/// What is known of a name; nothing, where there is no such name.
pub open spec fn info_of(state: StateView, name: Seq<char>) -> NameView {
    if state.contains_key(name) {
        state[name]
    } else {
        NameView::new()
    }
}

/// The endpoints of a name on a port.
pub open spec fn endpoints_of(state: StateView, name: Seq<char>, port: u16) -> Option<
    Seq<SocketAddr>,
> {
    if tracks(state, name, port) {
        state[name].ports[port].endpoints
    } else {
        None
    }
}

/// Whether two states know the same of a port of a name.
pub open spec fn agree_on(a: StateView, b: StateView, name: Seq<char>, port: u16) -> bool {
    &&& tracks(a, name, port) == tracks(b, name, port)
    &&& pins(a, name, port) == pins(b, name, port)
    &&& endpoints_of(a, name, port) == endpoints_of(b, name, port)
}

/// The state after an answer for `name`: nothing changes unless the name is still there.
pub open spec fn answered(
    state: StateView,
    name: Seq<char>,
    now: Instant,
    answer: AnswerView,
) -> StateView {
    if state.contains_key(name) {
        state.insert(
            name,
            (NameView { in_flight: false, ..state[name] }).merge_answer(now, answer),
        )
    } else {
        state
    }
}

/// The state after a port of a name was pinned.
pub open spec fn pinned(state: StateView, name: Seq<char>, port: u16) -> StateView {
    state.insert(name, info_of(state, name).pin(port))
}

/// The state without a port of a name, and without the name if that was its last port.
pub open spec fn removed(state: StateView, name: Seq<char>, port: u16) -> StateView {
    if state.contains_key(name) {
        let ports = state[name].ports.remove(port);
        if ports =~= Map::empty() {
            state.remove(name)
        } else {
            state.insert(name, NameView { ports, ..state[name] })
        }
    } else {
        state
    }
}

/// The ports that `pairs` asks for of a name.
pub open spec fn ports_asked(pairs: Seq<(Seq<char>, u16)>, name: Seq<char>) -> Set<u16> {
    Set::new(|p: u16| pairs.contains((name, p)))
}

/// Whether a port of a name is there after `pairs` has replaced the set of names: it was
/// asked for, or is pinned.
pub open spec fn stays(
    state: StateView,
    pairs: Seq<(Seq<char>, u16)>,
    name: Seq<char>,
    port: u16,
) -> bool {
    pairs.contains((name, port)) || pins(state, name, port)
}

/// The state after `pairs` has replaced the set of names. What is known of a name or a
/// port that stays is kept.
pub open spec fn updated(state: StateView, pairs: Seq<(Seq<char>, u16)>) -> StateView {
    Map::new(
        |n: Seq<char>| exists|p: u16| #[trigger] stays(state, pairs, n, p),
        |n: Seq<char>| info_of(state, n).set_ports(ports_asked(pairs, n)),
    )
}

/// `t` is when the first of all the last answers came.
pub open spec fn is_earliest(state: StateView, t: Instant) -> bool {
    &&& exists|n: Seq<char>| #[trigger] state.contains_key(n) && state[n].resolved_at == Some(t)
    &&& forall|n: Seq<char>| #[trigger]
        state.contains_key(n) ==> (state[n].resolved_at matches Some(u) ==> t.nanos <= u.nanos)
}

/// No name has ever had an answer.
pub open spec fn none_resolved(state: StateView) -> bool {
    forall|n: Seq<char>| #[trigger] state.contains_key(n) ==> state[n].resolved_at is None
}

/// The state after a worker has claimed a name.
pub open spec fn claimed(state: StateView, name: Seq<char>) -> StateView {
    state.insert(name, NameView { in_flight: true, ..state[name] })
}

/// Whether there is a name that nobody ever looked up, and nobody is looking up.
pub open spec fn has_new(state: StateView) -> bool {
    exists|n: Seq<char>| #[trigger] state.contains_key(n) && state[n].is_new()
}

/// Whether some name can be claimed.
pub open spec fn has_work(state: StateView, before: Instant) -> bool {
    exists|n: Seq<char>| #[trigger]
        state.contains_key(n) && (state[n].is_new() || state[n].is_due(before))
}

/// Whether `name` is the one to claim: the first of the names never looked up, if there are
/// any, and otherwise, of the names that are due, the first of those resolved last.
pub open spec fn is_next(state: StateView, before: Instant, name: Seq<char>) -> bool {
    &&& state.contains_key(name)
    &&& if has_new(state) {
        &&& state[name].is_new()
        &&& forall|n: Seq<char>| #[trigger]
            state.contains_key(n) && state[n].is_new() ==> n == name || name_less(name, n)
    } else {
        &&& state[name].is_due(before)
        &&& forall|n: Seq<char>| #[trigger]
            state.contains_key(n) && state[n].is_due(before) ==> {
                let t = state[n].resolved_at->0.nanos;
                let latest = state[name].resolved_at->0.nanos;
                t < latest || (t == latest && (n == name || name_less(name, n)))
            }
    }
}

} // verus!
