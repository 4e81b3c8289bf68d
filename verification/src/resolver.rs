//! The state of a resolver: which names it keeps track of, and what it knows of them.
use std::collections::BTreeMap;
use std::sync::Arc;
use vstd::prelude::*;
use vstd::std_specs::btree::increasing_seq;
use vstd::std_specs::cmp::OrdSpec;
use vstd::std_specs::iter::IteratorSpec;

use crate::addr::{addrs_on_port, on_port, same_addrs, sort_addrs, sorted_addrs, SocketAddr};
use crate::endpoints::EndpointGroup;
use crate::fields::work_field_by_field;
use crate::hostname::{name_less, Hostname};
use crate::laws::{
    answer_keeps_consistency, claim_keeps_consistency, good_answer_is_read_back,
    pin_keeps_consistency, remove_keeps_consistency, update_keeps_consistency,
};
use crate::model::{
    answered, claimed, consistent, endpoints_of, has_new, has_work, info_of, is_earliest, is_next,
    none_resolved, pinned, ports_asked, removed, stays, tracks, updated, AnswerView, NameView,
    PortView, StateView,
};
use crate::ord_map::{lemma_index_of, OrdMap};
use crate::time::Instant;

verus! {

/// `Arc::clone`: another handle on the same value.
#[verifier::external_body]
fn share(group: &Arc<EndpointGroup>) -> (shared: Arc<EndpointGroup>)
    ensures
        *shared == *group,
{
    group.clone()
}

/// What is known of one port of a name.
struct PortInfo {
    pinned: bool,
    endpoint_group: Option<Arc<EndpointGroup>>,
}

impl View for PortInfo {
    type V = PortView;

    closed spec fn view(&self) -> PortView {
        PortView {
            pinned: self.pinned,
            endpoints: match self.endpoint_group {
                Some(group) => Some(group@),
                None => None,
            },
        }
    }
}

impl PortInfo {
    fn new() -> (info: PortInfo)
        ensures
            info@ == PortView::new(),
    {
        PortInfo { pinned: false, endpoint_group: None }
    }

    /// Gives the port these addresses, with the port in place of their own.
    fn set_addrs(&mut self, port: u16, addrs: &Vec<SocketAddr>)
        ensures
            final(self)@ == old(self)@.set_addrs(port, addrs@),
    {
        let moved = addrs_on_port(addrs, port);
        self.endpoint_group = Some(Arc::new(EndpointGroup::from_dns_addrs(moved)));
    }
}

/// What is known of one name.
struct NameInfo {
    ports: BTreeMap<u16, PortInfo>,
    in_flight: bool,
    resolved_at: Option<Instant>,
    last_addrs: Option<Vec<SocketAddr>>,
    last_error: Option<String>,
}

impl View for NameInfo {
    type V = NameView;

    closed spec fn view(&self) -> NameView {
        NameView {
            ports: ports_view(self.ports@),
            in_flight: self.in_flight,
            resolved_at: self.resolved_at,
            last_addrs: match self.last_addrs {
                Some(addrs) => Some(addrs@),
                None => None,
            },
            last_error: match self.last_error {
                Some(error) => Some(error@),
                None => None,
            },
        }
    }
}

/// What is known of each port.
spec fn ports_view(ports: Map<u16, PortInfo>) -> Map<u16, PortView> {
    Map::new(|p: u16| ports.contains_key(p), |p: u16| ports[p]@)
}

/// The ports stand in ascending order, and none stands twice.
pub open spec fn ascending(ports: Seq<u16>) -> bool {
    forall|i: int, j: int|
        #![trigger ports[i], ports[j]]
        0 <= i < j < ports.len() ==> ports[i] < ports[j]
}

/// A list of ports stands in ascending order if each is followed by greater ones only.
pub proof fn ascending_ports_grow(ports: Seq<u16>)
    ensures
        ascending(ports) <==> forall|i: int, j: int|
            0 <= i < ports.len() && 0 <= j < ports.len() && i != j ==> (#[trigger] ports[i]
                < #[trigger] ports[j] <==> i < j),
{
}

/// What is kept of an answer is its addresses in their order, or the text of its error.
pub proof fn answer_is_taken_as_it_is(answer: Result<Vec<SocketAddr>, String>)
    ensures
        match (answer, answer_view(answer)) {
            (Ok(addrs), Ok(view)) => {
                &&& view.len() == addrs@.len()
                &&& forall|i: int| 0 <= i < view.len() ==> #[trigger] view[i] == addrs@[i]
            },
            (Err(error), Err(view)) => view == error@,
            _ => false,
        },
{
}

/// The view of an answer.
pub open spec fn answer_view(answer: Result<Vec<SocketAddr>, String>) -> AnswerView {
    match answer {
        Ok(addrs) => Ok(addrs@),
        Err(error) => Err(error@),
    }
}

impl NameInfo {
    /// Everything but the ports is the same.
    spec fn same_but_ports(&self, other: &NameInfo) -> bool {
        &&& self.in_flight == other.in_flight
        &&& self.resolved_at == other.resolved_at
        &&& self.last_addrs == other.last_addrs
        &&& self.last_error == other.last_error
    }

    fn new() -> (info: NameInfo)
        ensures
            info@ == NameView::new(),
    {
        let info = NameInfo {
            ports: BTreeMap::new(),
            in_flight: false,
            resolved_at: None,
            last_addrs: None,
            last_error: None,
        };
        assert(info@.ports =~= Map::empty());
        info
    }

    fn merge_answer(&mut self, now: Instant, answer: Result<Vec<SocketAddr>, String>)
        ensures
            final(self)@ == old(self)@.merge_answer(now, answer_view(answer)),
    {
        self.resolved_at = Some(now);
        match answer {
            Ok(addrs) => {
                self.last_error = None;
                let addrs = sort_addrs(&addrs);
                let changed = match &self.last_addrs {
                    Some(last) => !same_addrs(last, &addrs),
                    None => true,
                };
                self.update_addrs(&addrs, changed);
                if changed {
                    self.last_addrs = Some(addrs);
                }
            },
            Err(error) => {
                self.last_error = Some(error);
            },
        }
    }

    /// Whether the last answer, if there was one, came before `t`.
    fn resolved_before(&self, t: Instant) -> (yes: bool)
        ensures
            yes == (self@.resolved_at matches Some(resolved_at) ==> resolved_at.nanos < t.nanos),
    {
        match self.resolved_at {
            Some(resolved_at) => resolved_at.nanos < t.nanos,
            None => true,
        }
    }

    /// Gives these addresses to every port if they have changed, and otherwise to every port
    /// that has no endpoints yet.
    fn update_addrs(&mut self, addrs: &Vec<SocketAddr>, changed: bool)
        ensures
            final(self)@ == (NameView {
                ports: Map::new(
                    |p: u16| old(self)@.ports.contains_key(p),
                    |p: u16|
                        if changed {
                            old(self)@.ports[p].set_addrs(p, addrs@)
                        } else {
                            old(self)@.ports[p].fill_addrs(p, addrs@)
                        },
                ),
                ..old(self)@
            }),
    {
        let ghost before = self.ports@;
        let ports = self.list_ports();
        assert forall|j: int| 0 <= j < ports@.len() implies before.contains_key(
            #[trigger] ports@[j],
        ) by {
            assert(ports@.to_set().contains(ports@[j]));
        }
        let mut i: usize = 0;
        while i < ports.len()
            invariant
                i <= ports@.len(),
                before == old(self).ports@,
                ascending(ports@),
                self.same_but_ports(old(self)),
                self.ports@.dom() == before.dom(),
                forall|j: int| 0 <= j < ports@.len() ==> before.contains_key(#[trigger] ports@[j]),
                forall|j: int|
                    0 <= j < i ==> self.ports@[#[trigger] ports@[j]]@ == (if changed {
                        before[ports@[j]]@.set_addrs(ports@[j], addrs@)
                    } else {
                        before[ports@[j]]@.fill_addrs(ports@[j], addrs@)
                    }),
                forall|j: int|
                    i <= j < ports@.len() ==> self.ports@[#[trigger] ports@[j]]
                        == before[ports@[j]],
            decreases ports@.len() - i,
        {
            let port: u16 = ports[i];
            let ghost last = self.ports@;
            if let Some(info) = self.ports.remove(&port) {
                let mut info = info;
                if changed || info.endpoint_group.is_none() {
                    info.set_addrs(port, addrs);
                }
                self.ports.insert(port, info);
                assert(self.ports@.dom() =~= last.dom());
            }
            i = i + 1;
        }
        proof {
            assert forall|p: u16| before.contains_key(p) implies exists|j: int|
                0 <= j < ports@.len() && #[trigger] ports@[j] == p by {
                assert(ports@.to_set().contains(p));
            }
            let target = Map::new(
                |p: u16| old(self)@.ports.contains_key(p),
                |p: u16|
                    if changed {
                        old(self)@.ports[p].set_addrs(p, addrs@)
                    } else {
                        old(self)@.ports[p].fill_addrs(p, addrs@)
                    },
            );
            assert forall|p: u16| #[trigger] target.dom().contains(p) implies self@.ports[p]
                == target[p] by {
                let j = choose|j: int| 0 <= j < ports@.len() && #[trigger] ports@[j] == p;
                assert(self.ports@.dom().contains(p));
            }
            assert(self@.ports =~= target);
        }
    }

    /// Pins a port, and says whether it was not there before.
    fn pin(&mut self, port: u16) -> (created: bool)
        ensures
            final(self)@ == old(self)@.pin(port),
            created == !old(self)@.ports.contains_key(port),
    {
        let (known, created) = match self.ports.remove(&port) {
            Some(info) => (info, false),
            None => (PortInfo::new(), true),
        };
        let mut info = known;
        info.pinned = true;
        if let Some(addrs) = &self.last_addrs {
            info.set_addrs(port, addrs);
        }
        self.ports.insert(port, info);
        assert(self@.ports =~= old(self)@.pin(port).ports);
        created
    }

    /// Leaves the ports in `new_ports` and those that are pinned, and says whether that
    /// took a port away or brought one.
    fn set_ports(&mut self, new_ports: &Vec<u16>) -> (changed: bool)
        ensures
            final(self)@ == old(self)@.set_ports(new_ports@.to_set()),
            changed == (final(self)@.ports.dom() != old(self)@.ports.dom()),
    {
        let ghost before = self@.ports;
        let ghost asked = new_ports@.to_set();
        let gone = self.drop_ports(new_ports);
        let ghost kept = self@.ports;
        let come = self.bring_ports(new_ports);
        let changed = gone || come;
        proof {
            assert forall|p: u16| #[trigger] asked.contains(p) == new_ports@.contains(p) by {}
            assert forall|p: u16| #[trigger] self@.ports.contains_key(p) == old(self)@.keeps(
                asked,
                p,
            ) by {
                assert(kept.contains_key(p) == (before.contains_key(p) && old(self)@.keeps(
                    asked,
                    p,
                )));
            }
            assert(self@.ports =~= old(self)@.set_ports(asked).ports);
            if gone {
                let p = choose|p: u16| #[trigger]
                    before.contains_key(p) && !kept.contains_key(p);
                assert(!self@.ports.dom().contains(p));
                assert(before.dom().contains(p));
            } else if come {
                let p = choose|p: u16| #[trigger]
                    self@.ports.contains_key(p) && !kept.contains_key(p);
                assert(self@.ports.dom().contains(p));
                assert(!before.dom().contains(p));
            } else {
                assert forall|p: u16| #[trigger] self@.ports.dom().contains(p)
                    == before.dom().contains(p) by {
                    if before.contains_key(p) {
                        assert(kept.contains_key(p));
                    }
                    if self@.ports.contains_key(p) {
                        assert(kept.contains_key(p));
                    }
                }
                assert(self@.ports.dom() =~= before.dom());
            }
        }
        changed
    }

    /// Drops the ports that are neither in `new_ports` nor pinned, and says whether there
    /// were any.
    fn drop_ports(&mut self, new_ports: &Vec<u16>) -> (gone: bool)
        ensures
            final(self).same_but_ports(old(self)),
            forall|p: u16| #[trigger]
                final(self)@.ports.contains_key(p) == (old(self)@.ports.contains_key(p) && old(
                    self,
                )@.keeps(new_ports@.to_set(), p)),
            forall|p: u16| #[trigger]
                final(self)@.ports.contains_key(p) ==> final(self)@.ports[p] == old(self)@.ports[p],
            gone == exists|p: u16| #[trigger]
                old(self)@.ports.contains_key(p) && !final(self)@.ports.contains_key(p),
    {
        let ghost before = self@.ports;
        let ghost asked = new_ports@.to_set();
        let ports = self.list_ports();
        let mut gone = false;
        let mut i: usize = 0;
        while i < ports.len()
            invariant
                i <= ports@.len(),
                before == old(self)@.ports,
                asked == new_ports@.to_set(),
                self.same_but_ports(old(self)),
                forall|p: u16| #[trigger]
                    self@.ports.contains_key(p) ==> before.contains_key(p) && self@.ports[p]
                        == before[p],
                forall|p: u16| #[trigger]
                    before.contains_key(p) && !self@.ports.contains_key(p) ==> !old(self)@.keeps(
                        asked,
                        p,
                    ),
                forall|j: int|
                    0 <= j < i ==> self@.ports.contains_key(#[trigger] ports@[j]) ==> old(
                        self,
                    )@.keeps(asked, ports@[j]),
                gone == exists|p: u16| #[trigger]
                    before.contains_key(p) && !self@.ports.contains_key(p),
            decreases ports@.len() - i,
        {
            let port: u16 = ports[i];
            let keep = match self.ports.get(&port) {
                Some(info) => info.pinned || has_port(new_ports, port),
                None => true,
            };
            if !keep {
                assert(self@.ports.contains_key(port));
                let ghost last = self@.ports;
                self.ports.remove(&port);
                assert(self@.ports =~= last.remove(port));
                assert(before.contains_key(port) && !self@.ports.contains_key(port));
                gone = true;
            }
            i = i + 1;
        }
        assert forall|p: u16| #[trigger] self@.ports.contains_key(p) implies old(self)@.keeps(
            asked,
            p,
        ) by {
            assert(ports@.to_set().contains(p));
        }
        gone
    }

    /// Adds the ports in `new_ports` that are not there, and says whether there were any.
    fn bring_ports(&mut self, new_ports: &Vec<u16>) -> (come: bool)
        ensures
            final(self).same_but_ports(old(self)),
            forall|p: u16| #[trigger]
                final(self)@.ports.contains_key(p) == (old(self)@.ports.contains_key(p)
                    || new_ports@.contains(p)),
            forall|p: u16| #[trigger]
                final(self)@.ports.contains_key(p) ==> final(self)@.ports[p] == (if old(
                    self,
                )@.ports.contains_key(p) {
                    old(self)@.ports[p]
                } else {
                    PortView::new()
                }),
            come == exists|p: u16| #[trigger]
                final(self)@.ports.contains_key(p) && !old(self)@.ports.contains_key(p),
    {
        let ghost before = self@.ports;
        let mut come = false;
        let mut i: usize = 0;
        while i < new_ports.len()
            invariant
                i <= new_ports@.len(),
                before == old(self)@.ports,
                self.same_but_ports(old(self)),
                forall|p: u16| #[trigger]
                    self@.ports.contains_key(p) == (before.contains_key(p) || new_ports@.take(
                        i as int,
                    ).contains(p)),
                forall|p: u16| #[trigger]
                    self@.ports.contains_key(p) ==> self@.ports[p] == (if before.contains_key(p) {
                        before[p]
                    } else {
                        PortView::new()
                    }),
                come == exists|p: u16| #[trigger]
                    self@.ports.contains_key(p) && !before.contains_key(p),
            decreases new_ports@.len() - i,
        {
            let port: u16 = new_ports[i];
            let ghost last = self@.ports;
            if !self.ports.contains_key(&port) {
                assert(!last.contains_key(port));
                self.ports.insert(port, PortInfo::new());
                assert(self@.ports =~= last.insert(port, PortView::new()));
                assert(self@.ports.contains_key(port) && !before.contains_key(port));
                come = true;
            } else {
                assert(last.contains_key(port));
            }
            proof {
                assert(new_ports@.take(i as int + 1) =~= new_ports@.take(i as int).push(port));
                assert forall|p: u16| #[trigger]
                    self@.ports.contains_key(p) == (before.contains_key(p) || new_ports@.take(
                        i as int + 1,
                    ).contains(p)) by {
                    vstd::seq_lib::lemma_seq_contains_after_push(
                        new_ports@.take(i as int),
                        port,
                        p,
                    );
                    assert(last.contains_key(p) == (before.contains_key(p) || new_ports@.take(
                        i as int,
                    ).contains(p)));
                }
            }
            i = i + 1;
        }
        assert(new_ports@.take(i as int) =~= new_ports@);
        come
    }

    /// The ports, in order.
    fn list_ports(&self) -> (ports: Vec<u16>)
        ensures
            ascending(ports@),
            ports@.to_set() == self@.ports.dom(),
    {
        let mut ports: Vec<u16> = Vec::new();
        let entries = self.ports.iter();
        let ghost all = entries.remaining();
        let ghost keys = all.map_values(|entry: (&u16, &PortInfo)| *entry.0);
        assert(increasing_seq(keys));
        for entry in it: entries
            invariant
                it.seq() == all,
                keys == all.map_values(|entry: (&u16, &PortInfo)| *entry.0),
                increasing_seq(keys),
                ports@ == keys.take(it.index()),
        {
            let (port, _) = entry;
            ports.push(*port);
            assert(ports@ =~= keys.take(it.index() + 1));
        }
        proof {
            assert(ports@ =~= keys);
            assert forall|i: int, j: int|
                #![trigger ports@[i], ports@[j]]
                0 <= i < j < ports@.len() implies ports@[i] < ports@[j] by {
                assert(keys[i].cmp_spec(&keys[j]) is Less);
            }
            assert forall|p: u16| ports@.to_set().contains(p) == self@.ports.dom().contains(p) by {
                if self.ports@.contains_key(p) {
                    let at = all.index_of((&p, &self.ports@[p]));
                    assert(ports@[at] == p);
                }
                if ports@.contains(p) {
                    let at = ports@.index_of(p);
                    assert(self.ports@.contains_key(*all[at].0));
                }
            }
            assert(ports@.to_set() =~= self@.ports.dom());
        }
        ports
    }
}

/// Whether a list of ports holds a port.
fn has_port(ports: &Vec<u16>, port: u16) -> (yes: bool)
    ensures
        yes == ports@.contains(port),
{
    let mut i: usize = 0;
    while i < ports.len()
        invariant
            i <= ports@.len(),
            forall|j: int| 0 <= j < i ==> ports@[j] != port,
        decreases ports@.len() - i,
    {
        if ports[i] == port {
            return true;
        }
        i = i + 1;
    }
    false
}

/// The names that a resolver keeps track of.
pub struct ResolverState {
    names: OrdMap<Hostname, NameInfo>,
}

impl View for ResolverState {
    type V = StateView;

    closed spec fn view(&self) -> StateView {
        self.names@
    }
}

impl ResolverState {
    /// What holds of a state between operations.
    pub closed spec fn wf(&self) -> bool {
        &&& self.names.wf()
        &&& consistent(self@)
    }

    /// What a caller can know of a state from its being well-formed.
    pub proof fn lemma_consistent(&self)
        requires
            self.wf(),
        ensures
            consistent(self@),
    {
    }

    /// The names in the view are those that stand somewhere in the list.
    proof fn lemma_names(&self)
        requires
            self.names.wf(),
        ensures
            forall|i: int|
                #![trigger self.names.keys()[i]]
                #![trigger self.names.values()[i]]
                0 <= i < self.names.keys().len() ==> {
                    &&& self@.contains_key(self.names.keys()[i])
                    &&& self@[self.names.keys()[i]] == self.names.values()[i]@
                },
            forall|n: Seq<char>| #[trigger]
                self@.contains_key(n) ==> exists|i: int|
                    0 <= i < self.names.keys().len() && #[trigger] self.names.keys()[i] == n,
    {
        assert forall|i: int|
            #![trigger self.names.keys()[i]]
            #![trigger self.names.values()[i]]
            0 <= i < self.names.keys().len() implies {
            &&& self@.contains_key(self.names.keys()[i])
            &&& self@[self.names.keys()[i]] == self.names.values()[i]@
        } by {
            self.names.lemma_at(i);
        }
        assert forall|n: Seq<char>| #[trigger] self@.contains_key(n) implies exists|i: int|
            0 <= i < self.names.keys().len() && #[trigger] self.names.keys()[i] == n by {
            let i = self.names.keys().index_of(n);
            assert(self.names.keys()[i] == n);
        }
    }

    /// Claims the next name to look up: the first name that was never looked up, or else, of
    /// the names whose last answer came no later than `before`, the one resolved last. A
    /// claimed name is not claimed again before there is an answer for it.
    pub fn next_name(&mut self, before: Instant) -> (next: Option<Hostname>)
        requires
            old(self).wf(),
        ensures
            final(self).wf(),
            match next {
                Some(name) => {
                    &&& is_next(old(self)@, before, name@)
                    &&& final(self)@ == claimed(old(self)@, name@)
                },
                None => {
                    &&& !has_work(old(self)@, before)
                    &&& final(self)@ == old(self)@
                },
            },
            next is Some <==> exists|n: Seq<char>| #[trigger]
                old(self)@.contains_key(n) && !old(self)@[n].in_flight && (
                old(self)@[n].resolved_at is None || old(self)@[n].resolved_at->0.nanos
                    <= before.nanos),
    {
        proof {
            self.lemma_names();
            work_field_by_field(self@, before);
        }
        let ghost keys = self.names.keys();
        let ghost values = self.names.values();
        let mut latest: Option<usize> = None;
        let mut i: usize = 0;
        while i < self.names.len()
            invariant
                self.wf(),
                *self == *old(self),
                keys == self.names.keys(),
                values == self.names.values(),
                i <= keys.len() == values.len(),
                forall|j: int|
                    #![trigger keys[j]]
                    #![trigger values[j]]
                    0 <= j < keys.len() ==> self@.contains_key(keys[j]) && self@[keys[j]]
                        == values[j]@,
                forall|n: Seq<char>| #[trigger]
                    self@.contains_key(n) ==> exists|j: int|
                        0 <= j < keys.len() && #[trigger] keys[j] == n,
                forall|j: int| 0 <= j < i ==> !(#[trigger] values[j])@.is_new(),
                match latest {
                    Some(at) => {
                        &&& at < i
                        &&& values[at as int]@.is_due(before)
                        &&& forall|j: int|
                            0 <= j < i && (#[trigger] values[j])@.is_due(before) ==> {
                                let t = values[at as int]@.resolved_at->0.nanos;
                                let u = values[j]@.resolved_at->0.nanos;
                                u < t || (u == t && at <= j)
                            }
                    },
                    None => forall|j: int|
                        0 <= j < i ==> !(#[trigger] values[j])@.is_due(before),
                },
            decreases keys.len() - i,
        {
            let info = self.names.value_at(i);
            if !info.in_flight {
                match info.resolved_at {
                    Some(t) => {
                        let newer = match latest {
                            Some(at) => self.names.value_at(at).resolved_before(t),
                            None => true,
                        };
                        if t.nanos <= before.nanos && newer {
                            latest = Some(i);
                        }
                    },
                    None => {
                        assert(values[i as int]@.is_new());
                        assert(self@.contains_key(keys[i as int]));
                        assert(has_new(self@));
                        assert forall|n: Seq<char>| #[trigger]
                            self@.contains_key(n) && self@[n].is_new() implies n == keys[i as int]
                            || name_less(keys[i as int], n) by {
                            let j = choose|j: int| 0 <= j < keys.len() && #[trigger] keys[j] == n;
                            assert(values[j]@.is_new());
                            assert(j >= i);
                        }
                        let name = self.claim(i);
                        return Some(name);
                    },
                }
            }
            i = i + 1;
        }
        proof {
            if has_new(self@) {
                let n = choose|n: Seq<char>| #[trigger]
                    self@.contains_key(n) && self@[n].is_new();
                let j = choose|j: int| 0 <= j < keys.len() && #[trigger] keys[j] == n;
                assert(!values[j]@.is_new());
            }
        }
        match latest {
            Some(at) => {
                assert forall|n: Seq<char>| #[trigger]
                    self@.contains_key(n) && self@[n].is_due(before) implies {
                    let t = values[at as int]@.resolved_at->0.nanos;
                    let u = self@[n].resolved_at->0.nanos;
                    u < t || (u == t && (n == keys[at as int] || name_less(
                        keys[at as int],
                        n,
                    )))
                } by {
                    let j = choose|j: int| 0 <= j < keys.len() && #[trigger] keys[j] == n;
                    assert(values[j]@.is_due(before));
                }
                assert(self@.contains_key(keys[at as int]));
                Some(self.claim(at))
            },
            None => {
                proof {
                    if has_work(self@, before) {
                        let n = choose|n: Seq<char>| #[trigger]
                            self@.contains_key(n) && (self@[n].is_new() || self@[n].is_due(before));
                        let j = choose|j: int| 0 <= j < keys.len() && #[trigger] keys[j] == n;
                        assert(!values[j]@.is_new() && !values[j]@.is_due(before));
                    }
                }
                None
            },
        }
    }

    /// Marks the name in place `i` as claimed.
    fn claim(&mut self, i: usize) -> (name: Hostname)
        requires
            old(self).wf(),
            i < old(self).names.keys().len(),
        ensures
            final(self).wf(),
            name@ == old(self).names.keys()[i as int],
            final(self)@ == claimed(old(self)@, name@),
    {
        proof {
            self.lemma_names();
        }
        let name = self.names.key_at(i).clone();
        let info = self.names.value_at_mut(i);
        info.in_flight = true;
        proof {
            claim_keeps_consistency(old(self)@, name@);
        }
        name
    }

    /// When the name that went longest without an answer had its last one.
    pub fn min_resolved_at(&self) -> (earliest: Option<Instant>)
        requires
            self.wf(),
        ensures
            match earliest {
                Some(t) => is_earliest(self@, t),
                None => none_resolved(self@),
            },
    {
        proof {
            self.lemma_names();
        }
        let ghost keys = self.names.keys();
        let ghost values = self.names.values();
        let mut earliest: Option<Instant> = None;
        let mut i: usize = 0;
        while i < self.names.len()
            invariant
                keys == self.names.keys(),
                values == self.names.values(),
                i <= keys.len() == values.len(),
                match earliest {
                    Some(t) => {
                        &&& exists|j: int|
                            0 <= j < i && (#[trigger] values[j])@.resolved_at == Some(t)
                        &&& forall|j: int|
                            0 <= j < i ==> ((#[trigger] values[j])@.resolved_at matches Some(u)
                                ==> t.nanos <= u.nanos)
                    },
                    None => forall|j: int|
                        0 <= j < i ==> (#[trigger] values[j])@.resolved_at is None,
                },
            decreases keys.len() - i,
        {
            if let Some(t) = self.names.value_at(i).resolved_at {
                assert(values[i as int]@.resolved_at == Some(t));
                let earlier = match earliest {
                    Some(first) => t.nanos < first.nanos,
                    None => true,
                };
                if earlier {
                    earliest = Some(t);
                }
            }
            i = i + 1;
        }
        proof {
            if let Some(t) = earliest {
                let j = choose|j: int|
                    0 <= j < keys.len() && (#[trigger] values[j])@.resolved_at == Some(t);
                assert(self@.contains_key(keys[j]));
            }
        }
        earliest
    }

    /// The endpoints of a name on a port, if there are any.
    pub fn get_endpoints(&self, hostname: &Hostname, port: u16) -> (group: Option<
        Arc<EndpointGroup>,
    >)
        requires
            self.wf(),
        ensures
            match group {
                Some(group) => endpoints_of(self@, hostname@, port) == Some(group@),
                None => endpoints_of(self@, hostname@, port) is None,
            },
            group is Some <==> self@.contains_key(hostname@) && self@[hostname@].ports.contains_key(
                port,
            ) && self@[hostname@].ports[port].endpoints is Some,
            group matches Some(group) ==> self@[hostname@].ports[port].endpoints == Some(group@),
    {
        proof {
            self.lemma_names();
        }
        match self.names.find(hostname) {
            Ok(i) => {
                let info = self.names.value_at(i);
                match info.ports.get(&port) {
                    Some(port_info) => match &port_info.endpoint_group {
                        Some(group) => Some(share(group)),
                        None => None,
                    },
                    None => None,
                }
            },
            Err(_) => None,
        }
    }

    /// Keeps the answer to a lookup, if the name is still there: otherwise the set of names
    /// has changed since, and nobody wants the answer any more. The addresses of a good answer
    /// are then all the addresses of the name, on every port of it.
    pub fn insert_answer(
        &mut self,
        hostname: &Hostname,
        resolved_at: Instant,
        answer: Result<Vec<SocketAddr>, String>,
    )
        requires
            old(self).wf(),
        ensures
            final(self).wf(),
            final(self)@ == answered(old(self)@, hostname@, resolved_at, answer_view(answer)),
            answer matches Ok(addrs) ==> forall|p: u16|
                tracks(old(self)@, hostname@, p) ==> #[trigger] endpoints_of(
                    final(self)@,
                    hostname@,
                    p,
                ) == Some(on_port(sorted_addrs(addrs@), p)),
    {
        proof {
            self.lemma_names();
            if let Ok(addrs) = answer_view(answer) {
                assert forall|p: u16| tracks(self@, hostname@, p) implies #[trigger] endpoints_of(
                    answered(self@, hostname@, resolved_at, Ok(addrs)),
                    hostname@,
                    p,
                ) == Some(on_port(sorted_addrs(addrs), p)) by {
                    good_answer_is_read_back(self@, hostname@, p, resolved_at, addrs);
                }
            }
        }
        let ghost before = self@;
        if let Ok(i) = self.names.find(hostname) {
            let info = self.names.value_at_mut(i);
            info.in_flight = false;
            info.merge_answer(resolved_at, answer);
            proof {
                answer_keeps_consistency(before, hostname@, resolved_at, answer_view(answer));
            }
        }
    }

    /// Keeps track of a port of a name until it is removed, whatever the set of names. Says
    /// whether the port was not there before.
    pub fn pin(&mut self, hostname: Hostname, port: u16) -> (created: bool)
        requires
            old(self).wf(),
        ensures
            final(self).wf(),
            final(self)@ == pinned(old(self)@, hostname@, port),
            created == !tracks(old(self)@, hostname@, port),
            final(self)@.contains_key(hostname@),
            final(self)@[hostname@].ports.contains_key(port),
            final(self)@[hostname@].ports[port].pinned,
            old(self)@.contains_key(hostname@) ==> {
                &&& final(self)@[hostname@].in_flight == old(self)@[hostname@].in_flight
                &&& final(self)@[hostname@].resolved_at == old(self)@[hostname@].resolved_at
                &&& final(self)@[hostname@].last_addrs == old(self)@[hostname@].last_addrs
                &&& final(self)@[hostname@].last_error == old(self)@[hostname@].last_error
            },
            !old(self)@.contains_key(hostname@) ==> {
                &&& !final(self)@[hostname@].in_flight
                &&& final(self)@[hostname@].resolved_at is None
                &&& final(self)@[hostname@].last_addrs is None
                &&& final(self)@[hostname@].last_error is None
            },
    {
        proof {
            self.lemma_names();
        }
        let ghost before = self@;
        let ghost name = hostname@;
        match self.names.find(&hostname) {
            Ok(i) => {
                assert(before.contains_key(name));
                let info = self.names.value_at_mut(i);
                let created = info.pin(port);
                proof {
                    pin_keeps_consistency(before, name, port);
                }
                created
            },
            Err(i) => {
                let mut info = NameInfo::new();
                let created = info.pin(port);
                self.names.insert_at(i, hostname, info);
                proof {
                    pin_keeps_consistency(before, name, port);
                }
                created
            },
        }
    }
}

/// The names and ports of a list, as a sequence of pairs.
pub open spec fn pairs_view(pairs: Seq<(Hostname, u16)>) -> Seq<(Seq<char>, u16)> {
    pairs.map_values(|pair: (Hostname, u16)| (pair.0@, pair.1))
}

/// Every pair of a list counts, in its place.
pub proof fn pairs_are_taken_as_they_are(pairs: Seq<(Hostname, u16)>)
    ensures
        pairs_view(pairs).len() == pairs.len(),
        forall|i: int|
            0 <= i < pairs.len() ==> {
                &&& (#[trigger] pairs_view(pairs)[i]).0 == pairs[i].0@
                &&& pairs_view(pairs)[i].1 == pairs[i].1
            },
{
}

impl ResolverState {
    /// Forgets a port of a name, pinned or not, and the name with its last port.
    pub fn remove(&mut self, hostname: &Hostname, port: u16)
        requires
            old(self).wf(),
        ensures
            final(self).wf(),
            final(self)@ == removed(old(self)@, hostname@, port),
    {
        proof {
            self.lemma_names();
        }
        let ghost before = self@;
        let ghost name = hostname@;
        if let Ok(i) = self.names.find(hostname) {
            assert(before.contains_key(name));
            let info = self.names.value_at_mut(i);
            let ghost ports = info@.ports;
            info.ports.remove(&port);
            assert(info@.ports =~= ports.remove(port));
            let empty = info.ports.is_empty();
            assert(empty == (info@.ports =~= Map::<u16, PortView>::empty()));
            if empty {
                self.names.remove_at(i);
                assert(self@ =~= before.remove(name));
            }
            proof {
                assert(self@ =~= removed(before, name, port));
                remove_keeps_consistency(before, name, port);
            }
        }
    }

    /// Replaces the set of names: afterwards the ports in `new_names` are there, those that
    /// are pinned, and no others. Says whether that took a port away or brought one.
    pub fn update_all(&mut self, new_names: Vec<(Hostname, u16)>) -> (changed: bool)
        requires
            old(self).wf(),
        ensures
            final(self).wf(),
            final(self)@ == updated(old(self)@, pairs_view(new_names@)),
            changed == exists|n: Seq<char>, p: u16|
                tracks(old(self)@, n, p) != #[trigger] tracks(final(self)@, n, p),
    {
        let ghost before = self@;
        let ghost pairs = pairs_view(new_names@);
        let index = self.index_ports(&new_names);
        let changed = self.set_all_ports(&index);
        let ghost between = self@;
        self.drop_empty();
        proof {
            let target = updated(before, pairs);
            assert forall|n: Seq<char>| #[trigger] between.contains_key(n) implies {
                &&& between[n] == info_of(before, n).set_ports(ports_asked(pairs, n))
                &&& forall|p: u16| #[trigger]
                    between[n].ports.contains_key(p) == stays(before, pairs, n, p)
            } by {
                assert(index@[n].to_set() =~= ports_asked(pairs, n));
                assert forall|p: u16| #[trigger] between[n].ports.contains_key(p) == stays(
                    before,
                    pairs,
                    n,
                    p,
                ) by {}
            }
            assert forall|n: Seq<char>, p: u16| #[trigger] stays(before, pairs, n, p) implies
                between.contains_key(n) && self@.contains_key(n) by {
                assert(index@.contains_key(n));
                assert(between[n].ports.contains_key(p));
            }
            assert forall|n: Seq<char>| self@.dom().contains(n) == target.dom().contains(n) by {
                if self@.contains_key(n) {
                    let p = choose|p: u16| #[trigger] between[n].ports.contains_key(p);
                    assert(stays(before, pairs, n, p));
                }
            }
            assert(self@ =~= target);
            assert forall|n: Seq<char>, p: u16| #[trigger] tracks(self@, n, p) == tracks(
                between,
                n,
                p,
            ) by {
                if tracks(between, n, p) {
                    assert(stays(before, pairs, n, p));
                }
            }
            update_keeps_consistency(before, pairs);
            if changed {
                let (n, p) = choose|n: Seq<char>, p: u16|
                    tracks(before, n, p) != #[trigger] tracks(between, n, p);
                assert(tracks(before, n, p) != tracks(self@, n, p));
            }
        }
        changed
    }

    /// For each name of the state or the list, the ports that the list asks for.
    fn index_ports(&self, new_names: &Vec<(Hostname, u16)>) -> (index: OrdMap<
        Hostname,
        Vec<u16>,
    >)
        requires
            self.wf(),
        ensures
            index.wf(),
            forall|n: Seq<char>| #[trigger]
                index@.contains_key(n) == (self@.contains_key(n) || exists|p: u16|
                    pairs_view(new_names@).contains((n, p))),
            forall|n: Seq<char>, p: u16|
                index@.contains_key(n) ==> (#[trigger] index@[n].contains(p) == pairs_view(
                    new_names@,
                ).contains((n, p))),
    {
        let ghost pairs = pairs_view(new_names@);
        proof {
            self.lemma_names();
        }
        let mut index: OrdMap<Hostname, Vec<u16>> = OrdMap::new();
        let mut i: usize = 0;
        while i < self.names.len()
            invariant
                self.wf(),
                index.wf(),
                i <= self.names.keys().len(),
                forall|n: Seq<char>| #[trigger]
                    index@.contains_key(n) == exists|j: int|
                        0 <= j < i && #[trigger] self.names.keys()[j] == n,
                forall|n: Seq<char>| #[trigger]
                    index@.contains_key(n) ==> index@[n] == Seq::<u16>::empty(),
            decreases self.names.keys().len() - i,
        {
            let name = self.names.key_at(i).clone();
            let ghost last = index@;
            if let Err(at) = index.find(&name) {
                index.insert_at(at, name, Vec::new());
            }
            proof {
                assert forall|n: Seq<char>| #[trigger] index@.contains_key(n) == exists|j: int|
                    0 <= j < i + 1 && #[trigger] self.names.keys()[j] == n by {
                    assert(last.contains_key(n) == exists|j: int|
                        0 <= j < i && #[trigger] self.names.keys()[j] == n);
                    if n == name@ {
                        assert(self.names.keys()[i as int] == n);
                    }
                }
            }
            i = i + 1;
        }
        assert forall|n: Seq<char>| #[trigger] index@.contains_key(n) == self@.contains_key(n) by {
            if index@.contains_key(n) {
                let j = choose|j: int|
                    0 <= j < self.names.keys().len() && #[trigger] self.names.keys()[j] == n;
                assert(self@.contains_key(self.names.keys()[j]));
            }
        }
        assert(pairs.take(0) =~= Seq::empty());
        let mut i: usize = 0;
        while i < new_names.len()
            invariant
                index.wf(),
                i <= new_names@.len(),
                pairs == pairs_view(new_names@),
                forall|n: Seq<char>| #[trigger]
                    index@.contains_key(n) == (self@.contains_key(n) || exists|p: u16|
                        pairs.take(i as int).contains((n, p))),
                forall|n: Seq<char>, p: u16|
                    index@.contains_key(n) ==> (#[trigger] index@[n].contains(p) == pairs.take(
                        i as int,
                    ).contains((n, p))),
            decreases new_names@.len() - i,
        {
            let ghost last = index@;
            let ghost name = new_names@[i as int].0@;
            let port: u16 = new_names[i].1;
            match index.find(&new_names[i].0) {
                Ok(at) => {
                    proof {
                        index.lemma_at(at as int);
                    }
                    let ports = index.value_at_mut(at);
                    ports.push(port);
                    assert(index@ == last.insert(name, last[name].push(port)));
                },
                Err(at) => {
                    assert(!last.contains_key(name));
                    let mut ports: Vec<u16> = Vec::new();
                    ports.push(port);
                    index.insert_at(at, new_names[i].0.clone(), ports);
                    assert(index@ == last.insert(name, Seq::<u16>::empty().push(port)));
                },
            }
            proof {
                let seen = pairs.take(i as int);
                let now = pairs.take(i as int + 1);
                assert(now =~= seen.push((name, port)));
                assert forall|n: Seq<char>, p: u16| now.contains((n, p)) == (seen.contains((n, p))
                    || (n == name && p == port)) by {
                    vstd::seq_lib::lemma_seq_contains_after_push(seen, (name, port), (n, p));
                }
                assert forall|n: Seq<char>| #[trigger] index@.contains_key(n) == (
                self@.contains_key(n) || exists|p: u16| now.contains((n, p))) by {
                    assert(last.contains_key(n) == (self@.contains_key(n) || exists|p: u16|
                        seen.contains((n, p))));
                    if n == name {
                        assert(now.contains((n, port)));
                    } else if exists|p: u16| seen.contains((n, p)) {
                        let p = choose|p: u16| seen.contains((n, p));
                        assert(now.contains((n, p)));
                    } else if exists|p: u16| now.contains((n, p)) {
                        let p = choose|p: u16| now.contains((n, p));
                        assert(seen.contains((n, p)));
                    }
                }
                assert forall|n: Seq<char>, p: u16|
                    index@.contains_key(n) implies #[trigger] index@[n].contains(p)
                    == now.contains((n, p)) by {
                    if n == name {
                        if last.contains_key(name) {
                            vstd::seq_lib::lemma_seq_contains_after_push(last[name], port, p);
                            assert(last[name].contains(p) == seen.contains((n, p)));
                        } else {
                            vstd::seq_lib::lemma_seq_contains_after_push(
                                Seq::<u16>::empty(),
                                port,
                                p,
                            );
                            assert(!seen.contains((n, p)));
                        }
                    } else {
                        assert(last.contains_key(n));
                        assert(last[n].contains(p) == seen.contains((n, p)));
                    }
                }
            }
            i = i + 1;
        }
        assert(pairs.take(i as int) =~= pairs);
        index
    }

    /// Gives each name of the index its ports there, beside those that are pinned, and says
    /// whether that took a port away or brought one. A name can be left without any.
    fn set_all_ports(&mut self, index: &OrdMap<Hostname, Vec<u16>>) -> (changed: bool)
        requires
            old(self).names.wf(),
            index.wf(),
            forall|n: Seq<char>| #[trigger] old(self)@.contains_key(n) ==> index@.contains_key(n),
        ensures
            final(self).names.wf(),
            final(self)@.dom() == index@.dom(),
            forall|n: Seq<char>| #[trigger]
                final(self)@.contains_key(n) ==> final(self)@[n] == info_of(
                    old(self)@,
                    n,
                ).set_ports(index@[n].to_set()),
            changed == exists|n: Seq<char>, p: u16|
                tracks(old(self)@, n, p) != #[trigger] tracks(final(self)@, n, p),
    {
        let ghost before = self@;
        let ghost keys = index.keys();
        let mut changed = false;
        let mut i: usize = 0;
        while i < index.len()
            invariant
                self.names.wf(),
                index.wf(),
                keys == index.keys(),
                i <= keys.len(),
                forall|n: Seq<char>| #[trigger]
                    self@.contains_key(n) == (before.contains_key(n) || keys.take(
                        i as int,
                    ).contains(n)),
                forall|n: Seq<char>| #[trigger]
                    self@.contains_key(n) ==> self@[n] == (if keys.take(i as int).contains(n) {
                        info_of(before, n).set_ports(index@[n].to_set())
                    } else {
                        before[n]
                    }),
                changed == exists|n: Seq<char>, p: u16|
                    tracks(before, n, p) != #[trigger] tracks(self@, n, p),
            decreases keys.len() - i,
        {
            let ghost last = self@;
            let ghost name = keys[i as int];
            let ghost asked = index@[name].to_set();
            let new_ports = index.value_at(i);
            proof {
                self.lemma_names();
                index.lemma_at(i as int);
                lemma_index_of::<Hostname>(keys, i as int);
                if keys.take(i as int).contains(name) {
                    let j = keys.take(i as int).index_of(name);
                    lemma_index_of::<Hostname>(keys, j);
                }
                assert(info_of(last, name) == info_of(before, name));
            }
            let name_changed: bool;
            match self.names.find(index.key_at(i)) {
                Ok(at) => {
                    let info = self.names.value_at_mut(at);
                    name_changed = info.set_ports(new_ports);
                },
                Err(at) => {
                    let mut info = NameInfo::new();
                    name_changed = info.set_ports(new_ports);
                    self.names.insert_at(at, index.key_at(i).clone(), info);
                },
            }
            changed = changed || name_changed;
            proof {
                let info = info_of(before, name);
                assert(self@ == last.insert(name, info.set_ports(asked)));
                let seen = keys.take(i as int);
                let now = keys.take(i as int + 1);
                assert(now =~= seen.push(name));
                assert forall|n: Seq<char>| now.contains(n) == (seen.contains(n) || n == name) by {
                    vstd::seq_lib::lemma_seq_contains_after_push(seen, name, n);
                }
                assert forall|n: Seq<char>, p: u16| n != name implies tracks(last, n, p)
                    == #[trigger] tracks(self@, n, p) by {}
                assert forall|p: u16| #[trigger] tracks(last, name, p) == tracks(
                    before,
                    name,
                    p,
                ) by {}
                if name_changed {
                    assert(!(self@[name].ports.dom() =~= info.ports.dom()));
                    let p = choose|p: u16|
                        self@[name].ports.dom().contains(p) != info.ports.dom().contains(p);
                    assert(tracks(before, name, p) != tracks(self@, name, p));
                } else {
                    assert forall|p: u16| #[trigger] tracks(self@, name, p) == tracks(
                        before,
                        name,
                        p,
                    ) by {
                        assert(self@[name].ports.dom().contains(p) == info.ports.dom().contains(p));
                    }
                    if exists|n: Seq<char>, p: u16|
                        tracks(before, n, p) != #[trigger] tracks(last, n, p) {
                        let (n, p) = choose|n: Seq<char>, p: u16|
                            tracks(before, n, p) != #[trigger] tracks(last, n, p);
                        assert(n != name);
                        assert(tracks(before, n, p) != tracks(self@, n, p));
                    }
                    if exists|n: Seq<char>, p: u16|
                        tracks(before, n, p) != #[trigger] tracks(self@, n, p) {
                        let (n, p) = choose|n: Seq<char>, p: u16|
                            tracks(before, n, p) != #[trigger] tracks(self@, n, p);
                        assert(n != name);
                        assert(tracks(before, n, p) != tracks(last, n, p));
                    }
                }
            }
            i = i + 1;
        }
        proof {
            assert(keys.take(i as int) =~= keys);
            assert forall|n: Seq<char>| #[trigger] self@.dom().contains(n) == index@.dom().contains(
                n,
            ) by {
                if before.contains_key(n) {
                    assert(index@.contains_key(n));
                }
            }
            assert(self@.dom() =~= index@.dom());
        }
        changed
    }

    /// Forgets every name without ports.
    fn drop_empty(&mut self)
        requires
            old(self).names.wf(),
        ensures
            final(self).names.wf(),
            forall|n: Seq<char>| #[trigger]
                final(self)@.contains_key(n) == (old(self)@.contains_key(n) && exists|p: u16|
                    #[trigger] old(self)@[n].ports.contains_key(p)),
            forall|n: Seq<char>| #[trigger]
                final(self)@.contains_key(n) ==> final(self)@[n] == old(self)@[n],
    {
        let ghost before = self@;
        let mut i: usize = 0;
        while i < self.names.len()
            invariant
                self.names.wf(),
                i <= self.names.keys().len(),
                forall|n: Seq<char>| #[trigger]
                    self@.contains_key(n) ==> before.contains_key(n) && self@[n] == before[n],
                forall|n: Seq<char>| #[trigger]
                    before.contains_key(n) && !self@.contains_key(n) ==> forall|p: u16|
                        !(#[trigger] before[n].ports.contains_key(p)),
                forall|j: int|
                    0 <= j < i ==> exists|p: u16| #[trigger]
                        before[#[trigger] self.names.keys()[j]].ports.contains_key(p),
            decreases self.names.keys().len() - i,
        {
            let ghost last = self@;
            let ghost keys = self.names.keys();
            let ghost name = keys[i as int];
            proof {
                self.lemma_names();
            }
            let info = self.names.value_at(i);
            assert(before[name] == info@);
            if info.ports.is_empty() {
                assert forall|p: u16| !(#[trigger] before[name].ports.contains_key(p)) by {
                    assert(info.ports@.dom().contains(p) == info@.ports.contains_key(p));
                }
                self.names.remove_at(i);
                assert(self@ == last.remove(name));
                assert forall|j: int| 0 <= j < i implies exists|p: u16| #[trigger]
                    before[#[trigger] self.names.keys()[j]].ports.contains_key(p) by {
                    assert(self.names.keys()[j] == keys[j]);
                }
            } else {
                proof {
                    let p = info.ports@.dom().choose();
                    assert(before[name].ports.contains_key(p));
                }
                i = i + 1;
            }
        }
        proof {
            self.lemma_names();
            assert forall|n: Seq<char>| #[trigger] self@.contains_key(n) implies exists|p: u16|
                #[trigger] before[n].ports.contains_key(p) by {
                let j = choose|j: int|
                    0 <= j < self.names.keys().len() && #[trigger] self.names.keys()[j] == n;
                assert(exists|p: u16| #[trigger]
                    before[self.names.keys()[j]].ports.contains_key(p));
            }
        }
    }

    /// The names, in order, each with its ports, in order.
    pub fn names_and_ports(&self) -> (listed: Vec<(&str, Vec<u16>)>)
        requires
            self.wf(),
        ensures
            forall|i: int, j: int|
                0 <= i < j < listed@.len() ==> name_less(
                    (#[trigger] listed@[i]).0@,
                    (#[trigger] listed@[j]).0@,
                ),
            forall|n: Seq<char>| #[trigger]
                self@.contains_key(n) <==> exists|i: int|
                    0 <= i < listed@.len() && (#[trigger] listed@[i]).0@ == n,
            forall|i: int|
                0 <= i < listed@.len() ==> {
                    let (name, ports) = #[trigger] listed@[i];
                    &&& ascending(ports@)
                    &&& ports@.to_set() == self@[name@].ports.dom()
                },
    {
        proof {
            self.lemma_names();
        }
        let mut listed: Vec<(&str, Vec<u16>)> = Vec::new();
        let mut i: usize = 0;
        while i < self.names.len()
            invariant
                self.wf(),
                i <= self.names.keys().len() == self.names.values().len(),
                listed@.len() == i,
                forall|j: int|
                    0 <= j < i ==> (#[trigger] listed@[j]).0@ == self.names.keys()[j],
                forall|j: int|
                    0 <= j < i ==> {
                        &&& ascending((#[trigger] listed@[j]).1@)
                        &&& listed@[j].1@.to_set() == self.names.values()[j]@.ports.dom()
                    },
            decreases self.names.keys().len() - i,
        {
            let name = self.names.key_at(i).as_str();
            let info = self.names.value_at(i);
            let ports = info.list_ports();
            listed.push((name, ports));
            i = i + 1;
        }
        proof {
            assert forall|n: Seq<char>| #[trigger] self@.contains_key(n) implies exists|i: int|
                0 <= i < listed@.len() && (#[trigger] listed@[i]).0@ == n by {
                let j = choose|j: int|
                    0 <= j < self.names.keys().len() && #[trigger] self.names.keys()[j] == n;
                assert(listed@[j].0@ == n);
            }
            assert forall|i: int| 0 <= i < listed@.len() implies {
                let (name, ports) = #[trigger] listed@[i];
                &&& ascending(ports@)
                &&& ports@.to_set() == self@[name@].ports.dom()
            } by {
                assert(self@[self.names.keys()[i]] == self.names.values()[i]@);
            }
        }
        listed
    }
}

impl Default for ResolverState {
    /// A state without any names.
    fn default() -> (state: ResolverState)
        ensures
            state.wf(),
            state@ == Map::<Seq<char>, NameView>::empty(),
    {
        ResolverState { names: OrdMap::new() }
    }
}

} // verus!
