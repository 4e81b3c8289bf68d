//! Socket addresses and their order.
use vstd::prelude::*;
use vstd::relations::{sorted_by, total_ordering};

verus! {

/// A socket address: an IP address and a port.
///
/// An IP address is held as the number that its octets spell, most significant octet first.
#[derive(Clone, Copy, Debug, PartialEq, Eq, Structural)]
#[allow(inconsistent_fields)]
pub enum SocketAddr {
    V4 { ip: u32, port: u16 },
    V6 { ip: u128, port: u16, flowinfo: u32, scope_id: u32 },
}

impl SocketAddr {
    /// The same address on another port.
    pub open spec fn with_port(self, port: u16) -> SocketAddr {
        match self {
            SocketAddr::V4 { ip, port: _ } => SocketAddr::V4 { ip, port },
            SocketAddr::V6 { ip, port: _, flowinfo, scope_id } => SocketAddr::V6 {
                ip,
                port,
                flowinfo,
                scope_id,
            },
        }
    }

    pub fn is_ipv4(&self) -> (yes: bool)
        ensures
            yes == (self is V4),
    {
        match self {
            SocketAddr::V4 { .. } => true,
            SocketAddr::V6 { .. } => false,
        }
    }

    pub fn set_port(&mut self, port: u16)
        ensures
            *final(self) == old(self).with_port(port),
            match (*old(self), *final(self)) {
                (SocketAddr::V4 { ip: ip1, port: _ }, SocketAddr::V4 { ip: ip2, port: now }) => {
                    ip1 == ip2 && now == port
                },
                (
                    SocketAddr::V6 { ip: ip1, port: _, flowinfo: flow1, scope_id: scope1 },
                    SocketAddr::V6 { ip: ip2, port: now, flowinfo: flow2, scope_id: scope2 },
                ) => ip1 == ip2 && flow1 == flow2 && scope1 == scope2 && now == port,
                _ => false,
            },
    {
        *self = match *self {
            SocketAddr::V4 { ip, port: _ } => SocketAddr::V4 { ip, port },
            SocketAddr::V6 { ip, port: _, flowinfo, scope_id } => SocketAddr::V6 {
                ip,
                port,
                flowinfo,
                scope_id,
            },
        };
    }
}

/// Whether `a` stands at or before `b`: IPv4 before IPv6, then by address, port, flow
/// information and scope, in this order.
pub open spec fn addr_le(a: SocketAddr, b: SocketAddr) -> bool {
    match (a, b) {
        (SocketAddr::V4 { ip: ip1, port: port1 }, SocketAddr::V4 { ip: ip2, port: port2 }) => {
            ip1 < ip2 || (ip1 == ip2 && port1 <= port2)
        },
        (SocketAddr::V4 { .. }, SocketAddr::V6 { .. }) => true,
        (SocketAddr::V6 { .. }, SocketAddr::V4 { .. }) => false,
        (
            SocketAddr::V6 { ip: ip1, port: port1, flowinfo: flow1, scope_id: scope1 },
            SocketAddr::V6 { ip: ip2, port: port2, flowinfo: flow2, scope_id: scope2 },
        ) => {
            ip1 < ip2 || (ip1 == ip2 && (port1 < port2 || (port1 == port2 && (flow1 < flow2 || (
            flow1 == flow2 && scope1 <= scope2)))))
        },
    }
}

/// The order of socket addresses, as a relation.
pub open spec fn addr_order() -> spec_fn(SocketAddr, SocketAddr) -> bool {
    |a: SocketAddr, b: SocketAddr| addr_le(a, b)
}

/// The addresses in ascending order.
pub open spec fn sorted_addrs(addrs: Seq<SocketAddr>) -> Seq<SocketAddr> {
    addrs.sort_by(addr_order())
}

/// The addresses, each on the port given.
pub open spec fn on_port(addrs: Seq<SocketAddr>, port: u16) -> Seq<SocketAddr> {
    addrs.map_values(|a: SocketAddr| a.with_port(port))
}

proof fn lemma_addr_order()
    ensures
        total_ordering(addr_order()),
{
}

/// Sorting keeps every address as often as it came and puts them in ascending order.
pub proof fn sorted_addrs_is_a_sort(addrs: Seq<SocketAddr>)
    ensures
        sorted_by(sorted_addrs(addrs), addr_order()),
        sorted_addrs(addrs).to_multiset() == addrs.to_multiset(),
        sorted_addrs(addrs).len() == addrs.len(),
{
    lemma_addr_order();
    addrs.lemma_sort_by_ensures(addr_order());
    addrs.to_multiset_ensures();
    sorted_addrs(addrs).to_multiset_ensures();
}

/// Sorting forgets in which order the addresses came: two lists that hold the same
/// addresses, each as often, are sorted into the same list.
pub proof fn sorted_addrs_forgets_the_order(a: Seq<SocketAddr>, b: Seq<SocketAddr>)
    requires
        a.to_multiset() == b.to_multiset(),
    ensures
        sorted_addrs(a) == sorted_addrs(b),
{
    lemma_addr_order();
    sorted_addrs_is_a_sort(a);
    sorted_addrs_is_a_sort(b);
    vstd::seq_lib::lemma_sorted_unique(sorted_addrs(a), sorted_addrs(b), addr_order());
}

/// Sorting what is in order already changes nothing.
pub proof fn sorted_addrs_of_sorted(addrs: Seq<SocketAddr>)
    requires
        sorted_by(addrs, addr_order()),
    ensures
        sorted_addrs(addrs) == addrs,
{
    lemma_addr_order();
    sorted_addrs_is_a_sort(addrs);
    vstd::seq_lib::lemma_sorted_unique(sorted_addrs(addrs), addrs, addr_order());
}

/// To put an address on a port changes the port and nothing else.
pub proof fn only_the_port_changes(addr: SocketAddr, port: u16)
    ensures
        match (addr, addr.with_port(port)) {
            (SocketAddr::V4 { ip: ip1, port: _ }, SocketAddr::V4 { ip: ip2, port: now }) => {
                ip1 == ip2 && now == port
            },
            (
                SocketAddr::V6 { ip: ip1, port: _, flowinfo: flow1, scope_id: scope1 },
                SocketAddr::V6 { ip: ip2, port: now, flowinfo: flow2, scope_id: scope2 },
            ) => ip1 == ip2 && flow1 == flow2 && scope1 == scope2 && now == port,
            _ => false,
        },
{
}

/// A list of addresses on a port has as many addresses as before, in the same order, each of
/// the same family, with the same IP address and on that port.
pub proof fn every_address_is_on_the_port(addrs: Seq<SocketAddr>, port: u16)
    ensures
        on_port(addrs, port).len() == addrs.len(),
        forall|i: int|
            0 <= i < addrs.len() ==> match (addrs[i], #[trigger] on_port(addrs, port)[i]) {
                (SocketAddr::V4 { ip: ip1, port: _ }, SocketAddr::V4 { ip: ip2, port: now }) => {
                    ip1 == ip2 && now == port
                },
                (
                    SocketAddr::V6 { ip: ip1, port: _, flowinfo: flow1, scope_id: scope1 },
                    SocketAddr::V6 { ip: ip2, port: now, flowinfo: flow2, scope_id: scope2 },
                ) => ip1 == ip2 && flow1 == flow2 && scope1 == scope2 && now == port,
                _ => false,
            },
{
}

/// Every IPv4 address stands before every IPv6 address. Two of one family stand in the order
/// of the numbers that their fields make, the IP address counting most and the port next.
pub proof fn addresses_stand_in_the_order_of_their_fields(a: SocketAddr, b: SocketAddr)
    ensures
        match (a, b) {
            (SocketAddr::V4 { .. }, SocketAddr::V6 { .. }) => addr_le(a, b),
            (SocketAddr::V6 { .. }, SocketAddr::V4 { .. }) => !addr_le(a, b),
            (SocketAddr::V4 { ip: ip1, port: port1 }, SocketAddr::V4 { ip: ip2, port: port2 }) => {
                addr_le(a, b) <==> ip1 * 0x1_0000 + port1 <= ip2 * 0x1_0000 + port2
            },
            (
                SocketAddr::V6 { ip: ip1, port: port1, flowinfo: flow1, scope_id: scope1 },
                SocketAddr::V6 { ip: ip2, port: port2, flowinfo: flow2, scope_id: scope2 },
            ) => addr_le(a, b) <==> ((ip1 * 0x1_0000 + port1) * 0x1_0000_0000 + flow1)
                * 0x1_0000_0000 + scope1 <= ((ip2 * 0x1_0000 + port2) * 0x1_0000_0000 + flow2)
                * 0x1_0000_0000 + scope2,
        },
{
}

/// A sorted list has the addresses of the list, each as often as it came. The IPv4 addresses
/// come first, and of two of one family that with the smaller fields.
pub proof fn sorted_addresses_ascend(addrs: Seq<SocketAddr>)
    ensures
        sorted_addrs(addrs).to_multiset() == addrs.to_multiset(),
        forall|i: int, j: int|
            0 <= i < j < addrs.len() ==> match (
                #[trigger] sorted_addrs(addrs)[i],
                #[trigger] sorted_addrs(addrs)[j],
            ) {
                (SocketAddr::V4 { .. }, SocketAddr::V6 { .. }) => true,
                (SocketAddr::V6 { .. }, SocketAddr::V4 { .. }) => false,
                (
                    SocketAddr::V4 { ip: ip1, port: port1 },
                    SocketAddr::V4 { ip: ip2, port: port2 },
                ) => ip1 * 0x1_0000 + port1 <= ip2 * 0x1_0000 + port2,
                (
                    SocketAddr::V6 { ip: ip1, port: port1, flowinfo: flow1, scope_id: scope1 },
                    SocketAddr::V6 { ip: ip2, port: port2, flowinfo: flow2, scope_id: scope2 },
                ) => ((ip1 * 0x1_0000 + port1) * 0x1_0000_0000 + flow1) * 0x1_0000_0000 + scope1
                    <= ((ip2 * 0x1_0000 + port2) * 0x1_0000_0000 + flow2) * 0x1_0000_0000
                    + scope2,
            },
{
    let sorted = sorted_addrs(addrs);
    sorted_addrs_is_a_sort(addrs);
    assert forall|i: int, j: int| 0 <= i < j < addrs.len() implies addr_le(
        #[trigger] sorted[i],
        #[trigger] sorted[j],
    ) by {
        assert(addr_order()(sorted[i], sorted[j]));
    }
    assert forall|i: int, j: int| 0 <= i < j < addrs.len() implies match (
        #[trigger] sorted[i],
        #[trigger] sorted[j],
    ) {
        (SocketAddr::V4 { .. }, SocketAddr::V6 { .. }) => true,
        (SocketAddr::V6 { .. }, SocketAddr::V4 { .. }) => false,
        (SocketAddr::V4 { ip: ip1, port: port1 }, SocketAddr::V4 { ip: ip2, port: port2 }) => ip1
            * 0x1_0000 + port1 <= ip2 * 0x1_0000 + port2,
        (
            SocketAddr::V6 { ip: ip1, port: port1, flowinfo: flow1, scope_id: scope1 },
            SocketAddr::V6 { ip: ip2, port: port2, flowinfo: flow2, scope_id: scope2 },
        ) => ((ip1 * 0x1_0000 + port1) * 0x1_0000_0000 + flow1) * 0x1_0000_0000 + scope1 <= ((ip2
            * 0x1_0000 + port2) * 0x1_0000_0000 + flow2) * 0x1_0000_0000 + scope2,
    } by {
        addresses_stand_in_the_order_of_their_fields(sorted[i], sorted[j]);
    }
}

fn addr_is_le(a: &SocketAddr, b: &SocketAddr) -> (yes: bool)
    ensures
        yes == addr_le(*a, *b),
{
    match (*a, *b) {
        (SocketAddr::V4 { ip: ip1, port: port1 }, SocketAddr::V4 { ip: ip2, port: port2 }) => {
            ip1 < ip2 || (ip1 == ip2 && port1 <= port2)
        },
        (SocketAddr::V4 { .. }, SocketAddr::V6 { .. }) => true,
        (SocketAddr::V6 { .. }, SocketAddr::V4 { .. }) => false,
        (
            SocketAddr::V6 { ip: ip1, port: port1, flowinfo: flow1, scope_id: scope1 },
            SocketAddr::V6 { ip: ip2, port: port2, flowinfo: flow2, scope_id: scope2 },
        ) => {
            ip1 < ip2 || (ip1 == ip2 && (port1 < port2 || (port1 == port2 && (flow1 < flow2 || (
            flow1 == flow2 && scope1 <= scope2)))))
        },
    }
}

/// Sorts the addresses in ascending order.
pub fn sort_addrs(addrs: &Vec<SocketAddr>) -> (sorted: Vec<SocketAddr>)
    ensures
        sorted@ == sorted_addrs(addrs@),
        sorted_by(sorted@, addr_order()),
        sorted@.to_multiset() == addrs@.to_multiset(),
{
    let mut sorted: Vec<SocketAddr> = Vec::new();
    let mut i: usize = 0;
    assert(addrs@.take(0) =~= sorted@);
    while i < addrs.len()
        invariant
            i <= addrs@.len(),
            sorted_by(sorted@, addr_order()),
            sorted@.to_multiset() == addrs@.take(i as int).to_multiset(),
        decreases addrs@.len() - i,
    {
        let addr = addrs[i];
        let mut at: usize = sorted.len();
        while at > 0 && !addr_is_le(&sorted[at - 1], &addr)
            invariant
                at <= sorted@.len(),
                forall|j: int| at <= j < sorted@.len() ==> !addr_le(#[trigger] sorted@[j], addr),
            decreases at,
        {
            at = at - 1;
        }
        let ghost before = sorted@;
        sorted.insert(at, addr);
        proof {
            let leq = addr_order();
            assert forall|a: int, b: int| 0 <= a < b < sorted@.len() implies #[trigger] leq(
                sorted@[a],
                sorted@[b],
            ) by {
                let a0 = if a < at { a } else { a - 1 };
                let b0 = if b < at { b } else { b - 1 };
                if a != at && b != at {
                    assert(leq(before[a0], before[b0]));
                } else if a == at {
                    assert(!addr_le(before[b0], addr));
                } else if a < at - 1 {
                    assert(leq(before[a0], before[at - 1]));
                }
            }
            before.to_multiset_ensures();
            sorted@.to_multiset_ensures();
            assert(sorted@.remove(at as int) =~= before);
            assert(sorted@.to_multiset() =~= before.to_multiset().insert(addr)) by {
                broadcast use vstd::multiset::group_multiset_axioms;

                assert(sorted@.contains(sorted@[at as int]));
            }
            addrs@.take(i as int).to_multiset_ensures();
            assert(addrs@.take(i as int + 1) =~= addrs@.take(i as int).push(addr));
        }
        i = i + 1;
    }
    proof {
        assert(addrs@.take(i as int) =~= addrs@);
        lemma_addr_order();
        sorted_addrs_is_a_sort(addrs@);
        vstd::seq_lib::lemma_sorted_unique(sorted@, sorted_addrs(addrs@), addr_order());
    }
    sorted
}

/// Whether two lists of addresses are the same list.
pub fn same_addrs(a: &Vec<SocketAddr>, b: &Vec<SocketAddr>) -> (yes: bool)
    ensures
        yes == (a@ == b@),
{
    if a.len() != b.len() {
        return false;
    }
    let mut i: usize = 0;
    while i < a.len()
        invariant
            i <= a@.len() == b@.len(),
            a@.take(i as int) =~= b@.take(i as int),
        decreases a@.len() - i,
    {
        if a[i] != b[i] {
            assert(a@[i as int] != b@[i as int]);
            return false;
        }
        assert(a@.take(i as int + 1) =~= a@.take(i as int).push(a@[i as int]));
        assert(b@.take(i as int + 1) =~= b@.take(i as int).push(b@[i as int]));
        i = i + 1;
    }
    assert(a@.take(i as int) =~= a@ && b@.take(i as int) =~= b@);
    true
}

/// The addresses, each on the port given.
pub fn addrs_on_port(addrs: &Vec<SocketAddr>, port: u16) -> (moved: Vec<SocketAddr>)
    ensures
        moved@ == on_port(addrs@, port),
{
    let mut moved: Vec<SocketAddr> = Vec::new();
    let mut i: usize = 0;
    while i < addrs.len()
        invariant
            i <= addrs@.len(),
            moved@ =~= on_port(addrs@.take(i as int), port),
        decreases addrs@.len() - i,
    {
        let mut addr = addrs[i];
        addr.set_port(port);
        moved.push(addr);
        assert(addrs@.take(i as int + 1) =~= addrs@.take(i as int).push(addrs@[i as int]));
        i = i + 1;
    }
    assert(addrs@.take(i as int) =~= addrs@);
    moved
}

/// The IPv4 addresses of an answer, in the order in which they came.
pub fn ipv4_only(addrs: &Vec<SocketAddr>) -> (kept: Vec<SocketAddr>)
    ensures
        kept@ == addrs@.filter(|a: SocketAddr| a is V4),
{
    let ghost is_v4 = |a: SocketAddr| a is V4;
    let mut kept: Vec<SocketAddr> = Vec::new();
    let mut i: usize = 0;
    assert(addrs@.take(0).filter(is_v4) =~= Seq::<SocketAddr>::empty()) by {
        reveal(Seq::filter);
    }
    while i < addrs.len()
        invariant
            i <= addrs@.len(),
            is_v4 == (|a: SocketAddr| a is V4),
            kept@ == addrs@.take(i as int).filter(is_v4),
        decreases addrs@.len() - i,
    {
        let addr = addrs[i];
        if addr.is_ipv4() {
            kept.push(addr);
        }
        proof {
            reveal(Seq::filter);
            assert(addrs@.take(i as int + 1).drop_last() =~= addrs@.take(i as int));
            assert(addrs@.take(i as int + 1).last() == addr);
        }
        i = i + 1;
    }
    assert(addrs@.take(i as int) =~= addrs@);
    kept
}

} // verus!
