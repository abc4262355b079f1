//! The bookkeeping of a batch of lookups: which names wait, which are in
//! flight under which transaction id, when each times out, and what each
//! one came to. The caller owns the sockets and the clock: it sends the
//! packets this state hands out, feeds back what arrives and the time, and
//! repeats until every name is settled.
use vstd::prelude::*;
use vstd::string::*;
use vstd::utf8::encode_utf8;
use std::collections::VecDeque;
use super::slab::{LookupSlab, LookupSlot, SLAB_SIZE, count_some};
use super::wheel::{TimingWheel, WheelView, wheel_advance_spec, wheel_insert_spec};
use super::wire::{build_query, build_query_spec, parse_header_spec, parse_response_header};
use super::{
    AddrView, ResolveConfig, ResolveResponse, ResolverAddr, QTYPE_NS, RCODE_NOERROR, RCODE_NXDOMAIN,
    addr_views, config_normal, is_definitive,
};
use crate::error::{AppError, ErrorView, help_err};

verus! {

broadcast use vstd::string::group_string_axioms;

/// Buckets of the timeout wheel.
pub const WHEEL_BUCKET_COUNT: usize = 1024;
/// Milliseconds covered by one bucket of the timeout wheel.
pub const WHEEL_RESOLUTION_MS: u64 = 10;
/// The size of the buffer a query is built in.
pub const MAX_DNS_PACKET_SIZE: usize = 512;

/// The address family of a socket or resolver.
#[derive(Debug, Clone, Copy, PartialEq, Eq, Structural)]
pub enum AddressFamily {
    V4,
    V6,
}

pub open spec fn family_of(a: AddrView) -> AddressFamily {
    if a.ip.len() == 4 { AddressFamily::V4 } else { AddressFamily::V6 }
}

/// A name waiting to be sent, and the attempt it will be.
#[derive(Debug, Clone, Copy, PartialEq, Eq, Structural)]
pub struct QueuedLookup {
    pub domain_index: u32,
    pub attempt: u8,
}

/// What the caller should do next to fill the send queue.
#[derive(Debug, Clone)]
pub enum SendStep {
    /// Nothing to send now: the lookups in flight are at the limit, or no
    /// name waits.
    Idle,
    /// A waiting name was already settled; nothing was sent.
    Skipped,
    /// The name could not be encoded as a query; it is settled as failed.
    Failed,
    /// No socket of the resolver's address family exists.
    NoSocket { resolver_index: usize },
    /// Send `bytes` through socket `socket_index` to resolver `resolver_index`.
    Packet { socket_index: usize, resolver_index: usize, id: u16, bytes: Vec<u8> },
}

/// The sockets to open: `socket_count` (at least one) IPv4 sockets when a
/// resolver is IPv4, then as many IPv6 sockets when a resolver is IPv6.
pub open spec fn families_spec(resolvers: Seq<AddrView>, socket_count: usize) -> Seq<AddressFamily> {
    let k = if socket_count == 0 { 1nat } else { socket_count as nat };
    let v4 = if exists|i: int| 0 <= i < resolvers.len() && family_of(#[trigger] resolvers[i]) == AddressFamily::V4 {
        Seq::new(k, |i: int| AddressFamily::V4)
    } else {
        Seq::empty()
    };
    let v6 = if exists|i: int| 0 <= i < resolvers.len() && family_of(#[trigger] resolvers[i]) == AddressFamily::V6 {
        Seq::new(k, |i: int| AddressFamily::V6)
    } else {
        Seq::empty()
    };
    v4 + v6
}

pub open spec fn no_sockets_err() -> ErrorView {
    help_err(
        "no compatible DNS sockets could be created"@,
        "configure at least one valid IPv4 or IPv6 resolver address"@,
    )
}

/// The families of the sockets to open for `resolvers`.
pub fn socket_families(resolvers: &[ResolverAddr], socket_count: usize) -> (r: Result<Vec<AddressFamily>, AppError>)
    ensures
        match r {
            Ok(f) => f@ == families_spec(addr_views(resolvers@), socket_count) && f@.len() > 0,
            Err(e) => families_spec(addr_views(resolvers@), socket_count).len() == 0 && e@ == no_sockets_err(),
        },
{
    let ghost rv = addr_views(resolvers@);
    let mut any_v4 = false;
    let mut any_v6 = false;
    let mut i: usize = 0;
    while i < resolvers.len()
        invariant
            i <= resolvers@.len(),
            rv == addr_views(resolvers@),
            any_v4 == exists|j: int| 0 <= j < i && family_of(#[trigger] rv[j]) == AddressFamily::V4,
            any_v6 == exists|j: int| 0 <= j < i && family_of(#[trigger] rv[j]) == AddressFamily::V6,
        decreases resolvers@.len() - i,
    {
        assert(rv[i as int] == resolvers@[i as int]@);
        if resolvers[i].is_v4() {
            any_v4 = true;
        } else {
            any_v6 = true;
        }
        i = i + 1;
    }
    let k: usize = if socket_count == 0 { 1 } else { socket_count };
    let mut f: Vec<AddressFamily> = Vec::new();
    if any_v4 {
        let mut j: usize = 0;
        while j < k
            invariant
                j <= k,
                f@ =~= Seq::new(j as nat, |i: int| AddressFamily::V4),
            decreases k - j,
        {
            f.push(AddressFamily::V4);
            j = j + 1;
        }
    }
    let ghost first = f@;
    if any_v6 {
        let mut j: usize = 0;
        while j < k
            invariant
                j <= k,
                f@ =~= first + Seq::new(j as nat, |i: int| AddressFamily::V6),
            decreases k - j,
        {
            f.push(AddressFamily::V6);
            j = j + 1;
        }
    }
    assert(f@ =~= families_spec(rv, socket_count));
    if f.len() == 0 {
        return Err(AppError::new("no compatible DNS sockets could be created").with_help(
            "configure at least one valid IPv4 or IPv6 resolver address",
        ));
    }
    Ok(f)
}

// ---------------------------------------------------------------------------
// The state and its transitions
// ---------------------------------------------------------------------------

/// The mathematical content of the bookkeeping.
#[verifier::ext_equal]
pub struct EngineView {
    /// What each transaction id is in flight for.
    pub slots: Seq<Option<LookupSlot>>,
    /// The names waiting to be sent, front first.
    pub pending: Seq<QueuedLookup>,
    /// The outcome of each name, set when it is settled.
    pub results: Seq<Option<ResolveResponse>>,
    /// Which names are settled.
    pub done: Seq<bool>,
    pub wheel: WheelView,
    pub next_v4: usize,
    pub next_v6: usize,
}

/// Settles name `d` with `r`, unless it is settled already.
pub open spec fn finish(v: EngineView, d: int, r: Option<ResolveResponse>) -> EngineView {
    if v.done[d] {
        v
    } else {
        EngineView { done: v.done.update(d, true), results: v.results.update(d, r), ..v }
    }
}

/// After a lookup failed or timed out: queue the next attempt, or settle
/// the name as failed once `max_attempts` were made.
pub open spec fn retry_or_fail_spec(v: EngineView, slot: LookupSlot, max_attempts: u8) -> EngineView {
    if slot.attempts < max_attempts {
        EngineView {
            pending: v.pending.push(QueuedLookup { domain_index: slot.domain_index, attempt: (slot.attempts + 1) as u8 }),
            ..v
        }
    } else {
        finish(v, slot.domain_index as int, None)
    }
}

/// The effect of a packet from `from`: a response whose id is in flight and
/// that comes from the resolver it was sent to ends that lookup, settling
/// the name on `NOERROR`/`NXDOMAIN` and retrying it on any other code.
/// Anything else is ignored.
pub open spec fn packet_spec(v: EngineView, bytes: Seq<u8>, from: AddrView, resolvers: Seq<AddrView>, max_attempts: u8) -> EngineView {
    match parse_header_spec(bytes) {
        None => v,
        Some(h) => match v.slots[h.id as int] {
            None => v,
            Some(slot) => if resolvers[slot.resolver_index as int] != from {
                v
            } else {
                let w = EngineView { slots: v.slots.update(h.id as int, None), ..v };
                if h.rcode == RCODE_NOERROR || h.rcode == RCODE_NXDOMAIN {
                    finish(w, slot.domain_index as int, Some(ResolveResponse { rcode: h.rcode, answer_count: h.answer_count }))
                } else {
                    retry_or_fail_spec(w, slot, max_attempts)
                }
            },
        },
    }
}

/// The effect of a timeout for transaction `id`.
pub open spec fn expire_one(v: EngineView, id: u16, max_attempts: u8) -> EngineView {
    match v.slots[id as int] {
        None => v,
        Some(slot) => retry_or_fail_spec(EngineView { slots: v.slots.update(id as int, None), ..v }, slot, max_attempts),
    }
}

/// The effect of the timeouts `ids`, in order.
pub open spec fn expire_all(v: EngineView, ids: Seq<u16>, max_attempts: u8) -> EngineView
    decreases ids.len(),
{
    if ids.len() == 0 {
        v
    } else {
        expire_one(expire_all(v, ids.drop_last(), max_attempts), ids.last(), max_attempts)
    }
}

/// The number of settled names.
pub open spec fn count_true(s: Seq<bool>) -> nat
    decreases s.len(),
{
    if s.len() == 0 {
        0
    } else {
        count_true(s.drop_last()) + if s.last() { 1nat } else { 0nat }
    }
}

proof fn lemma_count_true_set(s: Seq<bool>, i: int)
    requires
        0 <= i < s.len(),
        !s[i],
    ensures
        count_true(s.update(i, true)) == count_true(s) + 1,
    decreases s.len(),
{
    if i < s.len() - 1 {
        lemma_count_true_set(s.drop_last(), i);
        assert(s.update(i, true).drop_last() =~= s.drop_last().update(i, true));
    } else {
        assert(s.update(i, true).drop_last() =~= s.drop_last());
    }
}

proof fn lemma_count_true_bounded(s: Seq<bool>)
    ensures
        count_true(s) <= s.len(),
        count_true(s) == s.len() <==> forall|j: int| 0 <= j < s.len() ==> #[trigger] s[j],
    decreases s.len(),
{
    if s.len() > 0 {
        lemma_count_true_bounded(s.drop_last());
        if count_true(s) == s.len() {
            assert forall|j: int| 0 <= j < s.len() implies #[trigger] s[j] by {
                if j < s.len() - 1 {
                    assert(s[j] == s.drop_last()[j]);
                }
            }
        }
        if forall|j: int| 0 <= j < s.len() ==> #[trigger] s[j] {
            assert forall|j: int| 0 <= j < s.drop_last().len() implies #[trigger] s.drop_last()[j] by {
                assert(s.drop_last()[j] == s[j]);
            }
        }
    }
}

proof fn lemma_count_true_none(n: nat)
    ensures
        count_true(Seq::new(n, |i: int| false)) == 0,
    decreases n,
{
    if n > 0 {
        lemma_count_true_none((n - 1) as nat);
        assert(Seq::new(n, |i: int| false).drop_last() =~= Seq::new((n - 1) as nat, |i: int| false));
    }
}

/// A random number (`rand::random::<usize>()`); any value may come.
#[verifier::external_body]
fn random_index() -> usize {
    rand::random::<usize>()
}

/// The bookkeeping of one batch of lookups.
pub struct ResolveState {
    config: ResolveConfig,
    families: Vec<AddressFamily>,
    slab: LookupSlab,
    wheel: TimingWheel,
    pending: VecDeque<QueuedLookup>,
    results: Vec<Option<ResolveResponse>>,
    done: Vec<bool>,
    completed: usize,
    next_v4: usize,
    next_v6: usize,
}

impl ResolveState {
    pub closed spec fn view(&self) -> EngineView {
        EngineView {
            slots: self.slab.entries(),
            pending: self.pending@,
            results: self.results@,
            done: self.done@,
            wheel: self.wheel@,
            next_v4: self.next_v4,
            next_v6: self.next_v6,
        }
    }

    /// The resolvers lookups are sent to.
    pub closed spec fn resolvers(&self) -> Seq<AddrView> {
        addr_views(self.config.resolvers@)
    }

    /// The families of the caller's sockets.
    pub closed spec fn families(&self) -> Seq<AddressFamily> {
        self.families@
    }

    pub closed spec fn config_spec(&self) -> ResolveConfig {
        self.config
    }

    /// The number of names of the batch.
    pub closed spec fn count(&self) -> nat {
        self.results@.len()
    }

    pub closed spec fn wf(&self) -> bool {
        let n = self.results@.len();
        &&& self.done@.len() == n
        &&& n <= u32::MAX as nat + 1
        &&& self.completed == count_true(self.done@)
        &&& config_normal(self.config)
        &&& 1 <= self.config.resolvers@.len() <= 65536
        &&& self.slab.wf()
        &&& self.wheel.wf()
        &&& self.next_v4 <= self.families@.len()
        &&& self.next_v6 <= self.families@.len()
        &&& forall|id: int| 0 <= id < SLAB_SIZE && (#[trigger] self.slab.entries()[id]) is Some ==> {
            &&& (self.slab.entries()[id]->0.domain_index as int) < n
            &&& (self.slab.entries()[id]->0.resolver_index as int) < self.config.resolvers@.len()
        }
        &&& forall|k: int| 0 <= k < self.pending@.len() ==> ((#[trigger] self.pending@[k]).domain_index as int) < n
        &&& forall|i: int| 0 <= i < n && !(#[trigger] self.done@[i]) ==> self.results@[i] is None
    }

    /// A batch of `domain_count` names, all waiting for their first
    /// attempt, with the caller's sockets of the given families, started at
    /// `now_ms`. A configuration without resolvers is refused.
    pub fn new(config: ResolveConfig, families: Vec<AddressFamily>, domain_count: usize, now_ms: u64) -> (r: Result<Self, AppError>)
        requires
            config_normal(config),
            config.resolvers@.len() <= 65536,
            domain_count <= u32::MAX as nat + 1,
        ensures
            r is Err <==> config.resolvers@.len() == 0,
            match r {
                Ok(s) => {
                    &&& s.wf()
                    &&& s.resolvers() == addr_views(config.resolvers@)
                    &&& s.families() == families@
                    &&& s.config_spec() == config
                    &&& s.view().results == Seq::new(domain_count as nat, |i: int| None::<ResolveResponse>)
                    &&& s.view().done == Seq::new(domain_count as nat, |i: int| false)
                    &&& s.view().pending == Seq::new(domain_count as nat, |i: int| QueuedLookup { domain_index: i as u32, attempt: 1 })
                    &&& s.view().slots == Seq::new(SLAB_SIZE as nat, |i: int| None::<LookupSlot>)
                    &&& s.view().wheel.buckets == Seq::new(WHEEL_BUCKET_COUNT as nat, |i: int| Seq::<u16>::empty())
                    &&& s.view().wheel.current == 0
                    &&& s.view().wheel.resolution_ms == WHEEL_RESOLUTION_MS
                    &&& s.view().wheel.last_advance_ms == now_ms
                    &&& s.view().next_v4 == 0 && s.view().next_v6 == 0
                },
                Err(e) => e@ == help_err(
                    "no DNS resolvers configured"@,
                    "configure at least one resolver via DOMAINGREP_RESOLVERS"@,
                ),
            },
    {
        if config.resolvers.len() == 0 {
            return Err(AppError::new("no DNS resolvers configured").with_help(
                "configure at least one resolver via DOMAINGREP_RESOLVERS",
            ));
        }
        let mut pending: VecDeque<QueuedLookup> = VecDeque::new();
        let mut i: usize = 0;
        while i < domain_count
            invariant
                i <= domain_count,
                domain_count <= u32::MAX as nat + 1,
                pending@ =~= Seq::new(i as nat, |j: int| QueuedLookup { domain_index: j as u32, attempt: 1 }),
            decreases domain_count - i,
        {
            pending.push_back(QueuedLookup { domain_index: i as u32, attempt: 1 });
            i = i + 1;
        }
        let results: Vec<Option<ResolveResponse>> = vec![None; domain_count];
        let done: Vec<bool> = vec![false; domain_count];
        proof {
            assert(done@ =~= Seq::new(domain_count as nat, |i: int| false));
            assert(results@ =~= Seq::new(domain_count as nat, |i: int| None::<ResolveResponse>));
            lemma_count_true_none(domain_count as nat);
        }
        let s = ResolveState {
            config,
            families,
            slab: LookupSlab::new(),
            wheel: TimingWheel::new(WHEEL_BUCKET_COUNT, WHEEL_RESOLUTION_MS, now_ms),
            pending,
            results,
            done,
            completed: 0,
            next_v4: 0,
            next_v6: 0,
        };
        Ok(s)
    }

    /// The lookups in flight refer to names of the batch.
    pub proof fn lemma_slots_in_range(&self)
        requires
            self.wf(),
        ensures
            slots_in_range(self.view()),
    {
        self.slab.lemma_entries_len();
    }

    /// Whether every name is settled.
    pub fn is_finished(&self) -> (b: bool)
        requires
            self.wf(),
        ensures
            b == forall|i: int| 0 <= i < self.count() ==> #[trigger] self.view().done[i],
    {
        proof {
            lemma_count_true_bounded(self.done@);
            assert(self.view().done == self.done@);
            assert(self.count() == self.done@.len());
        }
        self.completed == self.results.len()
    }

    /// The outcome of every name: the response that settled it, or `None`
    /// when it failed or is not settled.
    pub fn results(&self) -> (r: Vec<Option<ResolveResponse>>)
        ensures
            r@ == self.view().results,
    {
        self.results.clone()
    }

    fn finish_lookup(&mut self, d: usize, r: Option<ResolveResponse>)
        requires
            old(self).wf(),
            d < old(self).count(),
        ensures
            final(self).wf(),
            final(self).view() == finish(old(self).view(), d as int, r),
            final(self).resolvers() == old(self).resolvers(),
            final(self).families() == old(self).families(),
            final(self).config_spec() == old(self).config_spec(),
            final(self).count() == old(self).count(),
    {
        if self.done[d] {
            return;
        }
        proof {
            lemma_count_true_set(self.done@, d as int);
            lemma_count_true_bounded(self.done@.update(d as int, true));
            assert(self.done@.len() == self.done.len());
        }
        self.done.set(d, true);
        self.results.set(d, r);
        self.completed = self.completed + 1;
        assert(self.view() =~= finish(old(self).view(), d as int, r));
    }

    fn retry_or_fail(&mut self, slot: LookupSlot)
        requires
            old(self).wf(),
            (slot.domain_index as int) < old(self).count(),
        ensures
            final(self).wf(),
            final(self).view() == retry_or_fail_spec(old(self).view(), slot, old(self).config_spec().max_attempts),
            final(self).resolvers() == old(self).resolvers(),
            final(self).families() == old(self).families(),
            final(self).config_spec() == old(self).config_spec(),
            final(self).count() == old(self).count(),
    {
        if slot.attempts < self.config.max_attempts {
            self.pending.push_back(QueuedLookup { domain_index: slot.domain_index, attempt: slot.attempts + 1 });
            assert(self.view() =~= retry_or_fail_spec(old(self).view(), slot, self.config.max_attempts));
        } else {
            self.finish_lookup(slot.domain_index as usize, None);
        }
    }

    /// Frees transaction `id`.
    fn free_id(&mut self, id: u16)
        requires
            old(self).wf(),
        ensures
            final(self).wf(),
            final(self).view() == (EngineView { slots: old(self).view().slots.update(id as int, None), ..old(self).view() }),
            final(self).resolvers() == old(self).resolvers(),
            final(self).families() == old(self).families(),
            final(self).config_spec() == old(self).config_spec(),
            final(self).count() == old(self).count(),
    {
        let ghost before = self.slab.entries();
        proof {
            self.slab.lemma_entries_len();
        }
        let _removed = self.slab.remove(id);
        proof {
            assert forall|j: int| 0 <= j < SLAB_SIZE && (#[trigger] self.slab.entries()[j]) is Some implies {
                &&& (self.slab.entries()[j]->0.domain_index as int) < self.count()
                &&& (self.slab.entries()[j]->0.resolver_index as int) < self.config.resolvers@.len()
            } by {
                if j != id as int {
                    assert(self.slab.entries()[j] == before[j]);
                }
            }
        }
        assert(self.view() =~= EngineView { slots: old(self).view().slots.update(id as int, None), ..old(self).view() });
    }

    /// Retries or fails the lookup of transaction `id`, if one is in flight.
    fn expire_id(&mut self, id: u16)
        requires
            old(self).wf(),
        ensures
            final(self).wf(),
            final(self).view() == expire_one(old(self).view(), id, old(self).config_spec().max_attempts),
            final(self).resolvers() == old(self).resolvers(),
            final(self).families() == old(self).families(),
            final(self).config_spec() == old(self).config_spec(),
            final(self).count() == old(self).count(),
    {
        match self.slab.get(id) {
            Some(slot) => {
                assert(self.slab.entries()[id as int] is Some);
                self.free_id(id);
                self.retry_or_fail(slot);
            },
            None => {},
        }
    }

    /// Handles one packet received from `from`.
    pub fn handle_packet(&mut self, bytes: &[u8], from: &ResolverAddr)
        requires
            old(self).wf(),
        ensures
            final(self).wf(),
            final(self).view() == packet_spec(old(self).view(), bytes@, from@, old(self).resolvers(),
                old(self).config_spec().max_attempts),
            final(self).resolvers() == old(self).resolvers(),
            final(self).families() == old(self).families(),
            final(self).config_spec() == old(self).config_spec(),
            final(self).count() == old(self).count(),
    {
        let header = match parse_response_header(bytes) {
            Some(h) => h,
            None => { return; },
        };
        let slot = match self.slab.get(header.id) {
            Some(s) => s,
            None => { return; },
        };
        assert(self.slab.entries()[header.id as int] is Some);
        let ri = slot.resolver_index as usize;
        proof {
            assert(self.resolvers()[ri as int] == self.config.resolvers@[ri as int]@);
        }
        if !self.config.resolvers[ri].same(from) {
            return;
        }
        self.free_id(header.id);
        if is_definitive(header.rcode) {
            self.finish_lookup(
                slot.domain_index as usize,
                Some(ResolveResponse { rcode: header.rcode, answer_count: header.answer_count }),
            );
        } else {
            self.retry_or_fail(slot);
        }
    }

    /// Turns the timeout wheel to `now_ms` and retries or fails every
    /// lookup whose time ran out.
    pub fn handle_timeouts(&mut self, now_ms: u64)
        requires
            old(self).wf(),
        ensures
            final(self).wf(),
            final(self).view() == expire_all(
                EngineView { wheel: wheel_advance_spec(old(self).view().wheel, now_ms).0, ..old(self).view() },
                wheel_advance_spec(old(self).view().wheel, now_ms).1,
                old(self).config_spec().max_attempts,
            ),
            final(self).resolvers() == old(self).resolvers(),
            final(self).families() == old(self).families(),
            final(self).config_spec() == old(self).config_spec(),
            final(self).count() == old(self).count(),
    {
        let mut expired: Vec<u16> = Vec::new();
        self.wheel.advance_into(now_ms, &mut expired);
        assert(expired@ =~= wheel_advance_spec(old(self).view().wheel, now_ms).1);
        let ghost start = self.view();
        let ghost max = self.config.max_attempts;
        assert(start == EngineView { wheel: wheel_advance_spec(old(self).view().wheel, now_ms).0, ..old(self).view() });
        let mut k: usize = 0;
        assert(expired@.take(0) =~= Seq::<u16>::empty());
        while k < expired.len()
            invariant
                self.wf(),
                k <= expired@.len(),
                max == self.config.max_attempts,
                self.view() == expire_all(start, expired@.take(k as int), max),
                self.resolvers() == old(self).resolvers(),
                self.families() == old(self).families(),
                self.config_spec() == old(self).config_spec(),
                self.count() == old(self).count(),
            decreases expired@.len() - k,
        {
            let id = expired[k];
            assert(expired@.take(k + 1).drop_last() =~= expired@.take(k as int));
            assert(expired@.take(k + 1).last() == id);
            self.expire_id(id);
            k = k + 1;
        }
        assert(expired@.take(expired@.len() as int) =~= expired@);
    }

    /// The socket for family `f`: the first socket of that family at or
    /// after the family's next-socket pointer, going round; the pointer
    /// moves past it.
    fn pick_socket_for(&mut self, f: AddressFamily) -> (r: Option<usize>)
        requires
            old(self).wf(),
        ensures
            final(self).wf(),
            match r {
                Some(i) => pick_from(old(self).families(), f, start_for(old(self).view(), f) as int, 0) == Some(i as int),
                None => pick_from(old(self).families(), f, start_for(old(self).view(), f) as int, 0) is None,
            },
            final(self).view() == match r {
                Some(i) => with_next(old(self).view(), f, i as int, old(self).families().len() as int),
                None => old(self).view(),
            },
            final(self).resolvers() == old(self).resolvers(),
            final(self).families() == old(self).families(),
            final(self).config_spec() == old(self).config_spec(),
            final(self).count() == old(self).count(),
    {
        let len = self.families.len();
        let start = match f {
            AddressFamily::V4 => self.next_v4,
            AddressFamily::V6 => self.next_v6,
        };
        let ghost fams = self.families@;
        let mut offset: usize = 0;
        while offset < len
            invariant
                self.wf(),
                self.view() == old(self).view(),
                self.resolvers() == old(self).resolvers(),
                self.families() == old(self).families(),
                self.config_spec() == old(self).config_spec(),
                self.count() == old(self).count(),
                len == fams.len(),
                fams == self.families@,
                start <= len,
                offset <= len,
                start == start_for(self.view(), f),
                pick_from(fams, f, start as int, 0) == pick_from(fams, f, start as int, offset as int),
            decreases len - offset,
        {
            let index: usize = if offset >= len - start { offset - (len - start) } else { start + offset };
            proof {
                if offset >= len - start {
                    vstd::arithmetic::div_mod::lemma_fundamental_div_mod_converse(start + offset, len as int, 1, index as int);
                } else {
                    vstd::arithmetic::div_mod::lemma_fundamental_div_mod_converse(start + offset, len as int, 0, index as int);
                }
            }
            if self.families[index] == f {
                let next: usize = if index + 1 == len { 0 } else { index + 1 };
                proof {
                    if index + 1 == len {
                        vstd::arithmetic::div_mod::lemma_fundamental_div_mod_converse(index + 1, len as int, 1, 0);
                    } else {
                        vstd::arithmetic::div_mod::lemma_fundamental_div_mod_converse(index + 1, len as int, 0, index + 1);
                    }
                }
                match f {
                    AddressFamily::V4 => { self.next_v4 = next; },
                    AddressFamily::V6 => { self.next_v6 = next; },
                }
                assert(self.view() =~= with_next(old(self).view(), f, index as int, len as int));
                return Some(index);
            }
            offset = offset + 1;
        }
        None
    }

    /// Takes the next waiting name and, when a lookup slot is free, turns
    /// it into a query packet: a random resolver, a socket of its family, a
    /// free transaction id, and a timeout on the wheel.
    pub fn next_send(&mut self, domains: &[String]) -> (step: SendStep)
        requires
            old(self).wf(),
            domains@.len() == old(self).count(),
        ensures
            final(self).wf(),
            final(self).resolvers() == old(self).resolvers(),
            final(self).families() == old(self).families(),
            final(self).config_spec() == old(self).config_spec(),
            final(self).count() == old(self).count(),
            ({
                let v = old(self).view();
                let full = count_some(v.slots) >= old(self).config_spec().concurrency;
                let q = v.pending[0];
                let d = q.domain_index as int;
                let popped = EngineView { pending: v.pending.drop_first(), ..v };
                match step {
                    SendStep::Idle => (full || v.pending.len() == 0) && final(self).view() == v,
                    SendStep::Skipped => !full && v.pending.len() > 0 && v.done[d] && final(self).view() == popped,
                    SendStep::NoSocket { resolver_index } => {
                        &&& !full && v.pending.len() > 0 && !v.done[d]
                        &&& resolver_index < old(self).resolvers().len()
                        &&& pick_from(old(self).families(), family_of(old(self).resolvers()[resolver_index as int]),
                            start_for(v, family_of(old(self).resolvers()[resolver_index as int])) as int, 0) is None
                        &&& final(self).view() == popped
                    },
                    SendStep::Failed => {
                        &&& !full && v.pending.len() > 0 && !v.done[d]
                        &&& build_query_spec(Seq::new(MAX_DNS_PACKET_SIZE as nat, |i: int| 0u8), 0u16,
                            encode_utf8(domains@[d]@), QTYPE_NS).0 is None
                        &&& final(self).view() == finish(EngineView {
                            pending: v.pending.drop_first(),
                            next_v4: final(self).view().next_v4,
                            next_v6: final(self).view().next_v6,
                            ..v
                        }, d, None)
                    },
                    SendStep::Packet { socket_index, resolver_index, id, bytes } => {
                        let f = family_of(old(self).resolvers()[resolver_index as int]);
                        let built = build_query_spec(Seq::new(MAX_DNS_PACKET_SIZE as nat, |i: int| 0u8), id,
                            encode_utf8(domains@[d]@), QTYPE_NS);
                        &&& !full && v.pending.len() > 0 && !v.done[d]
                        &&& resolver_index < old(self).resolvers().len()
                        &&& pick_from(old(self).families(), f, start_for(v, f) as int, 0) == Some(socket_index as int)
                        &&& old(self).families()[socket_index as int] == f
                        &&& v.slots[id as int] is None
                        &&& built.0 == Some(bytes@.len())
                        &&& bytes@ == built.1.take(bytes@.len() as int)
                        &&& final(self).view() == with_next(EngineView {
                            slots: v.slots.update(id as int, Some(LookupSlot {
                                domain_index: q.domain_index,
                                attempts: q.attempt,
                                resolver_index: resolver_index as u16,
                            })),
                            pending: v.pending.drop_first(),
                            wheel: wheel_insert_spec(v.wheel, id, old(self).config_spec().query_timeout_ms),
                            ..v
                        }, f, socket_index as int, old(self).families().len() as int)
                    },
                }
            }),
    {
        if self.slab.active_count() >= self.config.concurrency {
            return SendStep::Idle;
        }
        let q = match self.pending.pop_front() {
            Some(q) => q,
            None => { return SendStep::Idle; },
        };
        let d = q.domain_index as usize;
        assert(self.view() =~= EngineView { pending: old(self).view().pending.drop_first(), ..old(self).view() });
        if self.done[d] {
            return SendStep::Skipped;
        }
        let ri = random_index() % self.config.resolvers.len();
        proof {
            assert(self.resolvers()[ri as int] == self.config.resolvers@[ri as int]@);
        }
        let fam = if self.config.resolvers[ri].is_v4() { AddressFamily::V4 } else { AddressFamily::V6 };
        let socket_index = match self.pick_socket_for(fam) {
            Some(i) => i,
            None => { return SendStep::NoSocket { resolver_index: ri }; },
        };
        let ghost picked = self.view();
        proof {
            self.slab.lemma_entries_len();
            lemma_pick_from_valid(old(self).families(), fam, start_for(old(self).view(), fam) as int, 0);
        }
        let id = self.slab.insert(LookupSlot { domain_index: q.domain_index, attempts: q.attempt, resolver_index: ri as u16 });
        proof {
            assert forall|j: int| 0 <= j < SLAB_SIZE && (#[trigger] self.slab.entries()[j]) is Some implies {
                &&& (self.slab.entries()[j]->0.domain_index as int) < self.count()
                &&& (self.slab.entries()[j]->0.resolver_index as int) < self.config.resolvers@.len()
            } by {
                if j != id as int {
                    assert(self.slab.entries()[j] == picked.slots[j]);
                }
            }
        }
        let mut buf: Vec<u8> = vec![0u8; MAX_DNS_PACKET_SIZE];
        assert(buf@ =~= Seq::new(MAX_DNS_PACKET_SIZE as nat, |i: int| 0u8));
        let built = build_query(buf.as_mut_slice(), id, domains[d].as_str(), QTYPE_NS);
        match built {
            None => {
                assert(build_query_spec(Seq::new(MAX_DNS_PACKET_SIZE as nat, |i: int| 0u8), 0u16,
                    encode_utf8(domains@[d as int]@), QTYPE_NS).0 is None);
                self.free_id(id);
                assert(self.view() =~= picked);
                self.finish_lookup(d, None);
                proof {
                    let v = old(self).view();
                    assert(!(count_some(v.slots) >= old(self).config_spec().concurrency));
                    assert(v.pending.len() > 0);
                    assert(!v.done[d as int]);
                    assert(picked == with_next(EngineView { pending: v.pending.drop_first(), ..v }, fam, socket_index as int, old(self).families().len() as int));
                    assert(self.view() == finish(EngineView {
                            pending: v.pending.drop_first(),
                            next_v4: self.view().next_v4,
                            next_v6: self.view().next_v6,
                            ..v
                        }, d as int, None));
                }
                SendStep::Failed
            },
            Some(len) => {
                self.wheel.insert(id, self.config.query_timeout_ms);
                buf.truncate(len);
                SendStep::Packet { socket_index, resolver_index: ri, id, bytes: buf }
            },
        }
    }
}

/// The next-socket pointer of family `f`.
pub open spec fn start_for(v: EngineView, f: AddressFamily) -> usize {
    match f {
        AddressFamily::V4 => v.next_v4,
        AddressFamily::V6 => v.next_v6,
    }
}

/// The state after socket `i` of `len` was used for family `f`.
pub open spec fn with_next(v: EngineView, f: AddressFamily, i: int, len: int) -> EngineView {
    match f {
        AddressFamily::V4 => EngineView { next_v4: ((i + 1) % len) as usize, ..v },
        AddressFamily::V6 => EngineView { next_v6: ((i + 1) % len) as usize, ..v },
    }
}

/// The first socket of family `f` at or after `start + offset`, going
/// round.
pub open spec fn pick_from(families: Seq<AddressFamily>, f: AddressFamily, start: int, offset: int) -> Option<int>
    decreases families.len() - offset,
{
    if offset < 0 || offset >= families.len() {
        None
    } else if families[(start + offset) % (families.len() as int)] == f {
        Some((start + offset) % (families.len() as int))
    } else {
        pick_from(families, f, start, offset + 1)
    }
}

/// A socket that `pick_from` finds exists and has the family asked for.
pub proof fn lemma_pick_from_valid(families: Seq<AddressFamily>, f: AddressFamily, start: int, offset: int)
    requires
        start >= 0,
        offset >= 0,
    ensures
        match pick_from(families, f, start, offset) {
            Some(i) => 0 <= i < families.len() && families[i] == f,
            None => true,
        },
    decreases families.len() - offset,
{
    if offset < families.len() {
        vstd::arithmetic::div_mod::lemma_mod_bound(start + offset, families.len() as int);
        lemma_pick_from_valid(families, f, start, offset + 1);
    }
}


/// Every name settled in `v` is still settled in `w`, with the same
/// outcome.
pub open spec fn keeps_settled(v: EngineView, w: EngineView) -> bool {
    &&& w.done.len() == v.done.len()
    &&& w.results.len() == v.results.len()
    &&& forall|i: int| 0 <= i < v.done.len() && #[trigger] v.done[i] ==> w.done[i] && w.results[i] == v.results[i]
}

/// The slots refer to names of the batch.
pub open spec fn slots_in_range(v: EngineView) -> bool {
    &&& v.slots.len() == SLAB_SIZE
    &&& v.done.len() == v.results.len()
    &&& forall|id: int| 0 <= id < SLAB_SIZE && (#[trigger] v.slots[id]) is Some ==>
        (v.slots[id]->0.domain_index as int) < v.done.len()
}

proof fn lemma_retry_keeps(v: EngineView, slot: LookupSlot, max: u8)
    requires
        v.done.len() == v.results.len(),
        (slot.domain_index as int) < v.done.len(),
    ensures
        keeps_settled(v, retry_or_fail_spec(v, slot, max)),
        slots_in_range(v) ==> slots_in_range(retry_or_fail_spec(v, slot, max)),
{
}

/// Handling a packet never unsettles a name nor changes its outcome.
pub proof fn lemma_packet_keeps_settled(v: EngineView, bytes: Seq<u8>, from: AddrView, resolvers: Seq<AddrView>, max: u8)
    requires
        slots_in_range(v),
    ensures
        keeps_settled(v, packet_spec(v, bytes, from, resolvers, max)),
{
    match parse_header_spec(bytes) {
        None => {},
        Some(h) => match v.slots[h.id as int] {
            None => {},
            Some(slot) => {
                assert(v.slots[h.id as int] is Some);
                let w = EngineView { slots: v.slots.update(h.id as int, None), ..v };
                lemma_retry_keeps(w, slot, max);
            },
        },
    }
}

/// A `NOERROR` or `NXDOMAIN` answer, from the resolver the lookup was sent
/// to, for a lookup in flight settles its name with exactly that answer,
/// unless the name was settled before.
pub proof fn lemma_answer_settles(v: EngineView, bytes: Seq<u8>, from: AddrView, resolvers: Seq<AddrView>, max: u8)
    requires
        slots_in_range(v),
        parse_header_spec(bytes) is Some,
        v.slots[parse_header_spec(bytes)->0.id as int] is Some,
        resolvers[v.slots[parse_header_spec(bytes)->0.id as int]->0.resolver_index as int] == from,
        parse_header_spec(bytes)->0.rcode == RCODE_NOERROR || parse_header_spec(bytes)->0.rcode == RCODE_NXDOMAIN,
    ensures
        ({
            let h = parse_header_spec(bytes)->0;
            let d = v.slots[h.id as int]->0.domain_index as int;
            let w = packet_spec(v, bytes, from, resolvers, max);
            &&& w.done[d]
            &&& !v.done[d] ==> w.results[d] == Some(ResolveResponse { rcode: h.rcode, answer_count: h.answer_count })
            &&& w.slots[h.id as int] is None
        }),
{
    let h = parse_header_spec(bytes)->0;
    assert(v.slots[h.id as int] is Some);
}

proof fn lemma_expire_one_keeps(v: EngineView, id: u16, max: u8)
    requires
        slots_in_range(v),
    ensures
        keeps_settled(v, expire_one(v, id, max)),
        slots_in_range(expire_one(v, id, max)),
{
    match v.slots[id as int] {
        None => {},
        Some(slot) => {
            assert(v.slots[id as int] is Some);
            let w = EngineView { slots: v.slots.update(id as int, None), ..v };
            assert(slots_in_range(w)) by {
                assert forall|j: int| 0 <= j < SLAB_SIZE && (#[trigger] w.slots[j]) is Some implies
                    (w.slots[j]->0.domain_index as int) < w.done.len() by {
                    assert(w.slots[j] == v.slots[j]);
                }
            }
            lemma_retry_keeps(w, slot, max);
        },
    }
}

/// Timeouts never unsettle a name nor change its outcome.
pub proof fn lemma_timeouts_keep_settled(v: EngineView, ids: Seq<u16>, max: u8)
    requires
        slots_in_range(v),
    ensures
        keeps_settled(v, expire_all(v, ids, max)),
        slots_in_range(expire_all(v, ids, max)),
    decreases ids.len(),
{
    if ids.len() > 0 {
        lemma_timeouts_keep_settled(v, ids.drop_last(), max);
        let m = expire_all(v, ids.drop_last(), max);
        lemma_expire_one_keeps(m, ids.last(), max);
    }
}

} // verus!
