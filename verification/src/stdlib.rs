//! A resolver that looks names up regularly, as a pool of workers asks it to.
//!
//! The resolver decides; locks, threads and lookups are the business of whoever drives it.
use std::sync::Arc;
use vstd::prelude::*;

use crate::addr::{ipv4_only, SocketAddr};
use crate::endpoints::EndpointGroup;
use crate::hostname::Hostname;
use crate::laws::earliest_is_unique;
use crate::model::{
    answered, claimed, consistent, endpoints_of, has_work, is_earliest, is_next, none_resolved,
    pinned, removed, tracks, updated, NameView, StateView,
};
use crate::resolver::{answer_view, pairs_view, ResolverState};
use crate::time::{nanos_since, rng_jitter, Duration, Instant, MAX_DURATION_NANOS};

verus! {

/// The port that names are looked up with. It does not matter which: an answer counts for
/// every port.
pub const LOOKUP_PORT: u16 = 80;

/// Who has to be told of a change.
#[derive(Clone, Copy, Debug, PartialEq, Eq, Structural)]
pub struct Wake {
    /// The workers that wait for a name to look up.
    pub workers: bool,
    /// The callers that wait for endpoints.
    pub waiters: bool,
}

/// What a worker has to do next.
#[derive(Debug)]
pub enum NextName {
    /// Stop: nobody but the workers is left.
    Shutdown,
    /// Look this name up.
    Lookup(Hostname),
    /// Wait until there is something to do.
    Idle,
}

/// A resolver that regularly looks up every name that it keeps track of.
///
/// With every answer, the addresses in it become all the addresses of the name, in place of
/// those of any earlier answer.
pub struct StdlibResolver {
    lookup_interval: Duration,
    lookup_jitter: Duration,
    tasks: ResolverState,
    worker_count: usize,
}

impl StdlibResolver {
    /// What is known of every name.
    pub closed spec fn state(&self) -> StateView {
        self.tasks@
    }

    /// How long an answer stays good.
    pub closed spec fn interval(&self) -> Duration {
        self.lookup_interval
    }

    /// The bound on the random time by which workers wait longer.
    pub closed spec fn jitter(&self) -> Duration {
        self.lookup_jitter
    }

    pub closed spec fn workers(&self) -> usize {
        self.worker_count
    }

    pub closed spec fn wf(&self) -> bool {
        &&& self.tasks.wf()
        &&& self.lookup_interval.nanos <= MAX_DURATION_NANOS
        &&& self.lookup_jitter.nanos <= MAX_DURATION_NANOS
    }

    /// Everything but the state is the same.
    pub open spec fn same_settings(&self, other: &StdlibResolver) -> bool {
        &&& self.interval() == other.interval()
        &&& self.jitter() == other.jitter()
        &&& self.workers() == other.workers()
    }

    /// What holds of a resolver between operations.
    pub proof fn lemma_consistent(&self)
        requires
            self.wf(),
        ensures
            consistent(self.state()),
            self.interval().nanos <= MAX_DURATION_NANOS,
            self.jitter().nanos <= MAX_DURATION_NANOS,
    {
        self.tasks.lemma_consistent();
    }

    /// A resolver for `threads` workers, without any names yet.
    pub fn new_with(
        lookup_interval: Duration,
        lookup_jitter: Duration,
        threads: usize,
    ) -> (resolver: StdlibResolver)
        requires
            lookup_interval.nanos <= MAX_DURATION_NANOS,
            lookup_jitter.nanos <= MAX_DURATION_NANOS,
        ensures
            resolver.wf(),
            resolver.state() == Map::<Seq<char>, NameView>::empty(),
            resolver.interval() == lookup_interval,
            resolver.jitter() == lookup_jitter,
            resolver.workers() == threads,
    {
        StdlibResolver {
            lookup_interval,
            lookup_jitter,
            tasks: ResolverState::default(),
            worker_count: threads,
        }
    }

    /// The endpoints of a name on a port, if there are any yet.
    pub fn get_endpoints(&self, hostname: &Hostname, port: u16) -> (group: Option<
        Arc<EndpointGroup>,
    >)
        requires
            self.wf(),
        ensures
            match group {
                Some(group) => endpoints_of(self.state(), hostname@, port) == Some(group@),
                None => endpoints_of(self.state(), hostname@, port) is None,
            },
    {
        self.tasks.get_endpoints(hostname, port)
    }

    /// Keeps track of a port of a name until someone unsubscribes from it. Everyone is told
    /// of a new port.
    pub fn subscribe(&mut self, name: Hostname, port: u16) -> (wake: Wake)
        requires
            old(self).wf(),
        ensures
            final(self).wf(),
            final(self).same_settings(old(self)),
            final(self).state() == pinned(old(self).state(), name@, port),
            wake == (Wake {
                workers: !tracks(old(self).state(), name@, port),
                waiters: !tracks(old(self).state(), name@, port),
            }),
    {
        let created = self.tasks.pin(name, port);
        Wake { workers: created, waiters: created }
    }

    /// Forgets a port of a name. The workers are told.
    pub fn unsubscribe(&mut self, name: &Hostname, port: u16) -> (wake: Wake)
        requires
            old(self).wf(),
        ensures
            final(self).wf(),
            final(self).same_settings(old(self)),
            final(self).state() == removed(old(self).state(), name@, port),
            wake == (Wake { workers: true, waiters: false }),
    {
        self.tasks.remove(name, port);
        Wake { workers: true, waiters: false }
    }

    /// Replaces the set of names, but for what was subscribed to. The workers are told if a
    /// port came or went.
    pub fn set_names(&mut self, new_names: Vec<(Hostname, u16)>) -> (wake: Wake)
        requires
            old(self).wf(),
        ensures
            final(self).wf(),
            final(self).same_settings(old(self)),
            final(self).state() == updated(old(self).state(), pairs_view(new_names@)),
            !wake.waiters,
            wake.workers == exists|n: Seq<char>, p: u16|
                tracks(old(self).state(), n, p) != #[trigger] tracks(final(self).state(), n, p),
    {
        let changed = self.tasks.update_all(new_names);
        Wake { workers: changed, waiters: false }
    }

    /// Whether the workers hold all the handles on the resolver that there are.
    pub fn is_shutdown(&self, strong_count: usize) -> (yes: bool)
        ensures
            yes == (strong_count <= self.workers()),
    {
        strong_count <= self.worker_count
    }

    /// What a worker has to do at `now`, while there are `strong_count` handles on the
    /// resolver. A name that it has to look up is claimed for it.
    pub fn next_name(&mut self, strong_count: usize, now: Instant) -> (next: NextName)
        requires
            old(self).wf(),
            strong_count > old(self).workers() ==> now.nanos - old(self).interval().nanos
                >= i128::MIN,
        ensures
            final(self).wf(),
            final(self).same_settings(old(self)),
            ({
                let before = Instant { nanos: (now.nanos - old(self).interval().nanos) as i128 };
                match next {
                    NextName::Shutdown => {
                        &&& strong_count <= old(self).workers()
                        &&& final(self).state() == old(self).state()
                    },
                    NextName::Lookup(name) => {
                        &&& strong_count > old(self).workers()
                        &&& is_next(old(self).state(), before, name@)
                        &&& final(self).state() == claimed(old(self).state(), name@)
                    },
                    NextName::Idle => {
                        &&& strong_count > old(self).workers()
                        &&& !has_work(old(self).state(), before)
                        &&& final(self).state() == old(self).state()
                    },
                }
            }),
            next is Shutdown <==> strong_count <= old(self).workers(),
            next is Idle ==> forall|n: Seq<char>| #[trigger]
                old(self).state().contains_key(n) && !old(self).state()[n].in_flight ==> {
                    &&& old(self).state()[n].resolved_at is Some
                    &&& old(self).state()[n].resolved_at->0.nanos + old(self).interval().nanos
                        > now.nanos
                },
            next matches NextName::Lookup(name) ==> {
                let info = old(self).state()[name@];
                &&& old(self).state().contains_key(name@)
                &&& !info.in_flight
                &&& info.resolved_at matches Some(t) ==> t.nanos + old(self).interval().nanos
                    <= now.nanos
            },
    {
        if self.is_shutdown(strong_count) {
            return NextName::Shutdown;
        }
        let before = Instant { nanos: now.nanos - self.lookup_interval.nanos as i128 };
        match self.tasks.next_name(before) {
            Some(name) => NextName::Lookup(name),
            None => NextName::Idle,
        }
    }

    /// When the name that went longest without an answer had its last one.
    pub fn earliest(&self) -> (earliest: Option<Instant>)
        requires
            self.wf(),
        ensures
            match earliest {
                Some(t) => is_earliest(self.state(), t),
                None => none_resolved(self.state()),
            },
    {
        self.tasks.min_resolved_at()
    }

    /// How long an idle worker waits at `now`, unless it is told earlier of a change; `None`
    /// if it waits for nothing else. A random time is added, so as to spread the load that
    /// the lookups put on name servers.
    pub fn wait_time(&self, now: Instant) -> (wait: Option<Duration>)
        requires
            self.wf(),
            forall|t: Instant| #[trigger]
                is_earliest(self.state(), t) ==> self.jitter().nanos > 0 && nanos_since(t, now)
                    + self.interval().nanos + self.jitter().nanos - 1 <= MAX_DURATION_NANOS,
        ensures
            wait is None <==> none_resolved(self.state()),
            forall|t: Instant| #[trigger]
                is_earliest(self.state(), t) ==> (wait matches Some(wait) && {
                    let least = nanos_since(t, now) + self.interval().nanos;
                    least <= wait.nanos < least + self.jitter().nanos
                }),
    {
        match self.earliest() {
            Some(t) => {
                assert(is_earliest(self.state(), t));
                let jitter = rng_jitter(self.lookup_jitter);
                let wait = wait_after(t, now, self.lookup_interval, jitter);
                assert forall|u: Instant| #[trigger] is_earliest(self.state(), u) implies u
                    == t by {
                    earliest_is_unique(self.state(), t, u);
                }
                Some(wait)
            },
            None => None,
        }
    }

    /// Keeps the answer to a lookup. The callers that wait for endpoints are told.
    pub fn insert_answer(
        &mut self,
        name: &Hostname,
        resolved_at: Instant,
        answer: Result<Vec<SocketAddr>, String>,
    ) -> (wake: Wake)
        requires
            old(self).wf(),
        ensures
            final(self).wf(),
            final(self).same_settings(old(self)),
            final(self).state() == answered(
                old(self).state(),
                name@,
                resolved_at,
                answer_view(answer),
            ),
            wake == (Wake { workers: false, waiters: true }),
    {
        self.tasks.insert_answer(name, resolved_at, answer);
        Wake { workers: false, waiters: true }
    }
}

/// Two resolvers have the same settings if they look names up as often, wait with the same
/// jitter and have as many workers.
pub proof fn settings_field_by_field(a: &StdlibResolver, b: &StdlibResolver)
    ensures
        a.same_settings(b) ==> a.interval().nanos == b.interval().nanos,
        a.same_settings(b) ==> a.jitter().nanos == b.jitter().nanos,
        a.same_settings(b) ==> a.workers() == b.workers(),
{
}

/// How long to wait at `now` where the first of all the last answers came at `earliest`: until
/// then if that is still to come, and for the lookup interval and the jitter after it.
pub fn wait_after(
    earliest: Instant,
    now: Instant,
    lookup_interval: Duration,
    jitter: Duration,
) -> (wait: Duration)
    requires
        nanos_since(earliest, now) + lookup_interval.nanos + jitter.nanos <= MAX_DURATION_NANOS,
    ensures
        wait.nanos == nanos_since(earliest, now) + lookup_interval.nanos + jitter.nanos,
{
    let until = earliest.saturating_duration_since(now);
    Duration { nanos: until.nanos + lookup_interval.nanos + jitter.nanos }
}

/// What is kept of the answer to a lookup: its IPv4 addresses, or the error.
pub fn ipv4_answer(answer: Result<Vec<SocketAddr>, String>) -> (kept: Result<
    Vec<SocketAddr>,
    String,
>)
    ensures
        answer_view(kept) == (match answer {
            Ok(addrs) => Ok(addrs@.filter(|a: SocketAddr| a is V4)),
            Err(error) => Err(error@),
        }),
{
    match answer {
        Ok(addrs) => Ok(ipv4_only(&addrs)),
        Err(error) => Err(error),
    }
}

} // verus!
