//! The network orchestrator's bookkeeping: the pending-address and
//! connected-channel sets, the host registry, the lifecycle state, and the
//! target selection for broadcasts.
//!
//! Addresses are opaque ids handed in by the transport layer. The sets obey
//! one invariant throughout: an address is never pending and connected at
//! the same time, and neither set holds an address twice. Sending bytes to
//! a peer is the caller's job; the broadcast methods return exactly the
//! addresses one broadcast must reach.

use vstd::prelude::*;

verus! {

/// Network configuration the orchestrator consults.
#[derive(Debug, Clone)]
pub struct Settings {
    /// Seed addresses queried during the one-shot discovery phase.
    pub seeds: Vec<u64>,
    /// Explicitly configured persistent peers.
    pub peers: Vec<u64>,
    /// The node's own inbound addresses.
    pub external_addr: Vec<u64>,
    /// The number of outbound connection slots.
    pub outbound_connections: usize,
    /// The number of inbound connections accepted.
    pub inbound_connections: usize,
}

/// The orchestrator's lifecycle: created, seeding, seeded, running.
#[derive(Debug, Clone, Copy, PartialEq, Eq, Structural)]
pub enum P2pState {
    /// Created but not yet started.
    Open,
    /// The initial seed session is in progress.
    Start,
    /// The seed session finished, the network is not yet active.
    Started,
    /// The network is active.
    Run,
}

impl P2pState {
    /// The lifecycle phase's name.
    pub fn as_str(&self) -> (r: &'static str)
        ensures
            r@ == match *self {
                P2pState::Open => "open"@,
                P2pState::Start => "start"@,
                P2pState::Started => "started"@,
                P2pState::Run => "run"@,
            },
    {
        match self {
            P2pState::Open => "open",
            P2pState::Start => "start",
            P2pState::Started => "started",
            P2pState::Run => "run",
        }
    }
}

/// Whether `v` holds `addr`.
fn contains_addr(v: &Vec<u64>, addr: u64) -> (r: bool)
    ensures
        r == v@.contains(addr),
{
    let mut i: usize = 0;
    while i < v.len()
        invariant
            i <= v@.len(),
            forall|j: int| 0 <= j < i ==> v@[j] != addr,
        decreases v@.len() - i,
    {
        if v[i] == addr {
            return true;
        }
        i = i + 1;
    }
    false
}

/// Removes every occurrence of `addr` from `v`, keeping the others in order.
fn remove_addr(v: &mut Vec<u64>, addr: u64)
    ensures
        final(v)@ == old(v)@.filter(|a: u64| a != addr),
{
    let ghost orig = v@;
    proof {
        reveal_with_fuel(Seq::<u64>::filter, 1);
        assert(orig.take(0).filter(|a: u64| a != addr) =~= Seq::<u64>::empty());
    }
    let mut out: Vec<u64> = Vec::new();
    let mut i: usize = 0;
    while i < v.len()
        invariant
            v@ == orig,
            i <= orig.len(),
            out@ == orig.take(i as int).filter(|a: u64| a != addr),
        decreases orig.len() - i,
    {
        proof {
            reveal_with_fuel(Seq::<u64>::filter, 2);
            assert(orig.take(i as int + 1).drop_last() =~= orig.take(i as int));
            assert(orig.take(i as int + 1).last() == orig[i as int]);
        }
        let a = v[i];
        if a != addr {
            out.push(a);
        }
        i = i + 1;
    }
    proof {
        assert(orig.take(orig.len() as int) =~= orig);
    }
    *v = out;
}

/// Every element of a filtered list comes from the list and satisfies the
/// predicate.
proof fn lemma_filter_members(s: Seq<u64>, pred: spec_fn(u64) -> bool)
    ensures
        forall|a: u64| #[trigger] s.filter(pred).contains(a) ==> s.contains(a) && pred(a),
    decreases s.len(),
{
    reveal_with_fuel(Seq::<u64>::filter, 2);
    if s.len() > 0 {
        let d = s.drop_last();
        lemma_filter_members(d, pred);
        let f = d.filter(pred);
        assert forall|a: u64| #[trigger] s.filter(pred).contains(a) implies s.contains(a) && pred(
            a,
        ) by {
            let g = s.filter(pred);
            let i = choose|i: int| 0 <= i < g.len() && g[i] == a;
            if pred(s.last()) && i == g.len() - 1 {
                assert(s[s.len() - 1] == a);
            } else {
                assert(f[i] == a);
                assert(f.contains(a));
                let j = choose|j: int| 0 <= j < d.len() && d[j] == a;
                assert(s[j] == a);
            }
        }
    }
}

/// Filtering keeps a duplicate-free list duplicate-free, and filtered
/// elements come from the list.
proof fn lemma_filter_no_dup(s: Seq<u64>, pred: spec_fn(u64) -> bool)
    requires
        s.no_duplicates(),
    ensures
        s.filter(pred).no_duplicates(),
        forall|a: u64| #[trigger] s.filter(pred).contains(a) ==> s.contains(a),
    decreases s.len(),
{
    reveal_with_fuel(Seq::<u64>::filter, 2);
    lemma_filter_members(s, pred);
    if s.len() > 0 {
        let d = s.drop_last();
        assert(d.no_duplicates());
        lemma_filter_no_dup(d, pred);
        let f = d.filter(pred);
        assert(s.filter(pred) == if pred(s.last()) {
            f.push(s.last())
        } else {
            f
        });
        if pred(s.last()) {
            assert(s.filter(pred) == f.push(s.last()));
            assert(!f.contains(s.last())) by {
                lemma_filter_members(d, pred);
                if f.contains(s.last()) {
                    let j = choose|j: int| 0 <= j < d.len() && d[j] == s.last();
                    assert(s[j] == s[s.len() - 1]);
                }
            }
            assert forall|i: int, j: int|
                0 <= i < j < f.push(s.last()).len() implies f.push(s.last())[i] != f.push(
                s.last(),
            )[j] by {
                if j == f.len() {
                    if f[i] == s.last() {
                        assert(f.contains(s.last()));
                    }
                }
            }
        }
    }
}

/// The top-level peer-to-peer networking interface: the pending and
/// connected address sets, the host registry, the lifecycle state, and the
/// settings.
pub struct P2p {
    /// Addresses with a connection attempt in flight.
    pub pending: Vec<u64>,
    /// Addresses of connected channels.
    pub channels: Vec<u64>,
    /// Known peer addresses used for seeding and reconnection.
    pub hosts: Vec<u64>,
    /// The lifecycle state.
    pub state: P2pState,
    /// The network settings.
    pub settings: Settings,
}

impl P2p {
    /// The pending addresses, as a set.
    pub open spec fn pending_set(&self) -> Set<u64> {
        self.pending@.to_set()
    }

    /// The connected addresses, as a set.
    pub open spec fn connected_set(&self) -> Set<u64> {
        self.channels@.to_set()
    }

    /// The invariant every operation preserves: no address is both pending
    /// and connected, and neither list repeats an address.
    pub open spec fn wf(&self) -> bool {
        &&& self.pending@.no_duplicates()
        &&& self.channels@.no_duplicates()
        &&& forall|i: int, j: int|
            0 <= i < self.pending@.len() && 0 <= j < self.channels@.len()
                ==> self.pending@[i] != self.channels@[j]
    }

    /// A fresh orchestrator: no pending or connected addresses, no hosts,
    /// lifecycle `Open`.
    pub fn new(settings: Settings) -> (r: Self)
        ensures
            r.wf(),
            r.pending@ == Seq::<u64>::empty(),
            r.channels@ == Seq::<u64>::empty(),
            r.hosts@ == Seq::<u64>::empty(),
            r.state == P2pState::Open,
            r.settings == settings,
    {
        let r = Self {
            pending: Vec::new(),
            channels: Vec::new(),
            hosts: Vec::new(),
            state: P2pState::Open,
            settings,
        };
        proof {
            assert(r.pending@ =~= Seq::<u64>::empty());
            assert(r.channels@ =~= Seq::<u64>::empty());
            assert(r.hosts@ =~= Seq::<u64>::empty());
        }
        r
    }

    /// Enters the seed-discovery phase.
    pub fn start_seeding(&mut self)
        ensures
            *final(self) == (P2p { state: P2pState::Start, ..*old(self) }),
    {
        self.state = P2pState::Start;
    }

    /// Records that seed discovery finished.
    pub fn finish_seeding(&mut self)
        ensures
            *final(self) == (P2p { state: P2pState::Started, ..*old(self) }),
    {
        self.state = P2pState::Started;
    }

    /// Enters the running phase.
    pub fn run(&mut self)
        ensures
            *final(self) == (P2p { state: P2pState::Run, ..*old(self) }),
    {
        self.state = P2pState::Run;
    }

    /// Reserves an address for a connection attempt. Refused (returning
    /// `false`, changing nothing) when the address is already pending or
    /// already connected: a duplicate reservation never happens.
    pub fn add_pending(&mut self, addr: u64) -> (r: bool)
        requires
            old(self).wf(),
        ensures
            final(self).wf(),
            r == (!old(self).pending_set().contains(addr) && !old(self).connected_set().contains(
                addr,
            )),
            r ==> final(self).pending@ == old(self).pending@.push(addr) && final(self).channels
                == old(self).channels && final(self).hosts == old(self).hosts && final(self).state
                == old(self).state && final(self).settings == old(self).settings,
            !r ==> *final(self) == *old(self),
    {
        if contains_addr(&self.pending, addr) {
            return false;
        }
        if contains_addr(&self.channels, addr) {
            return false;
        }
        self.pending.push(addr);
        proof {
            assert(self.pending@.drop_last() =~= old(self).pending@);
        }
        true
    }

    /// Releases a pending reservation; connected channels are untouched.
    pub fn remove_pending(&mut self, addr: u64)
        requires
            old(self).wf(),
        ensures
            final(self).wf(),
            final(self).pending_set() == old(self).pending_set().remove(addr),
            final(self).channels == old(self).channels,
            final(self).hosts == old(self).hosts,
            final(self).state == old(self).state,
            final(self).settings == old(self).settings,
    {
        let ghost orig = self.pending@;
        remove_addr(&mut self.pending, addr);
        proof {
            orig.filter_lemma(|a: u64| a != addr);
            assert forall|a: u64| #[trigger] final(self).pending_set().contains(a) implies old(
                self,
            ).pending_set().remove(addr).contains(a) by {
                lemma_filter_members(orig, |a2: u64| a2 != addr);
            }
            assert forall|a: u64| #[trigger] old(self).pending_set().remove(addr).contains(
                a,
            ) implies final(self).pending_set().contains(a) by {
                let i = choose|i: int| 0 <= i < orig.len() && orig[i] == a;
            }
            assert(final(self).pending_set() =~= old(self).pending_set().remove(addr));
            assert(self.pending@.no_duplicates()) by {
                lemma_filter_no_dup(orig, |a2: u64| a2 != addr);
            }
            assert forall|i: int, j: int|
                0 <= i < self.pending@.len() && 0 <= j < self.channels@.len() implies
                self.pending@[i] != self.channels@[j] by {
                lemma_filter_members(orig, |a2: u64| a2 != addr);
                assert(self.pending@.contains(self.pending@[i]));
                assert(orig.contains(self.pending@[i]));
                let i0 = choose|i0: int| 0 <= i0 < orig.len() && orig[i0] == self.pending@[i];
            }
        }
    }

    /// Moves an address to the connected set: its pending reservation (if
    /// any) is released, so the two sets stay exclusive. Returns whether the
    /// address is newly connected.
    pub fn store(&mut self, addr: u64) -> (r: bool)
        requires
            old(self).wf(),
        ensures
            final(self).wf(),
            final(self).connected_set() == old(self).connected_set().insert(addr),
            final(self).pending_set() == old(self).pending_set().remove(addr),
            r == !old(self).connected_set().contains(addr),
            final(self).hosts == old(self).hosts,
            final(self).state == old(self).state,
            final(self).settings == old(self).settings,
    {
        let ghost orig_p = self.pending@;
        remove_addr(&mut self.pending, addr);
        proof {
            orig_p.filter_lemma(|a2: u64| a2 != addr);
            lemma_filter_members(orig_p, |a2: u64| a2 != addr);
            assert forall|a: u64| #[trigger] self.pending@.to_set().contains(a) implies old(
                self,
            ).pending_set().remove(addr).contains(a) by {}
            assert forall|a: u64| #[trigger] old(self).pending_set().remove(addr).contains(
                a,
            ) implies self.pending@.to_set().contains(a) by {
                let i = choose|i: int| 0 <= i < orig_p.len() && orig_p[i] == a;
            }
            assert(self.pending@.to_set() =~= old(self).pending_set().remove(addr));
            lemma_filter_no_dup(orig_p, |a2: u64| a2 != addr);
        }
        let newly = !contains_addr(&self.channels, addr);
        if newly {
            let ghost mid_p = self.pending@;
            self.channels.push(addr);
            proof {
                assert forall|a: u64| #[trigger] self.channels@.to_set().contains(a) implies old(
                    self,
                ).connected_set().insert(addr).contains(a) by {
                    let k = choose|k: int| 0 <= k < self.channels@.len() && self.channels@[k] == a;
                    if k < old(self).channels@.len() {
                        assert(old(self).channels@[k] == a);
                    }
                }
                assert forall|a: u64| #[trigger] old(self).connected_set().insert(addr).contains(
                    a,
                ) implies self.channels@.to_set().contains(a) by {
                    if a == addr {
                        assert(self.channels@[self.channels@.len() - 1] == a);
                    } else {
                        let k = choose|k: int|
                            0 <= k < old(self).channels@.len() && old(self).channels@[k] == a;
                        assert(self.channels@[k] == a);
                    }
                }
                assert(self.channels@.to_set() =~= old(self).connected_set().insert(addr));
                // the grown channel list stays duplicate-free and disjoint
                // from the shrunk pending list
                assert forall|i: int, j: int|
                    0 <= i < j < self.channels@.len() implies self.channels@[i]
                    != self.channels@[j] by {
                    if j == self.channels@.len() - 1 {
                        if old(self).channels@[i] == addr {
                            assert(old(self).channels@.contains(addr));
                        }
                    }
                }
                assert forall|i: int, j: int|
                    0 <= i < mid_p.len() && 0 <= j < self.channels@.len() implies mid_p[i]
                    != self.channels@[j] by {
                    assert(mid_p.contains(mid_p[i]));
                    assert(orig_p.contains(mid_p[i]) && mid_p[i] != addr);
                    let i0 = choose|i0: int| 0 <= i0 < orig_p.len() && orig_p[i0] == mid_p[i];
                    if j < old(self).channels@.len() {
                        assert(old(self).channels@[j] == self.channels@[j]);
                    }
                }
            }
        } else {
            proof {
                assert(old(self).channels@.contains(addr));
                assert forall|a: u64| #[trigger] old(self).connected_set().insert(addr).contains(
                    a,
                ) implies self.channels@.to_set().contains(a) by {}
                assert(self.channels@.to_set() =~= old(self).connected_set().insert(addr));
                assert forall|i: int, j: int|
                    0 <= i < self.pending@.len() && 0 <= j < self.channels@.len() implies
                    self.pending@[i] != self.channels@[j] by {
                    assert(self.pending@.contains(self.pending@[i]));
                    assert(orig_p.contains(self.pending@[i]) && self.pending@[i] != addr);
                    let i0 = choose|i0: int|
                        0 <= i0 < orig_p.len() && orig_p[i0] == self.pending@[i];
                }
            }
        }
        newly
    }

    /// Drops an address from the connected set.
    pub fn remove(&mut self, addr: u64)
        requires
            old(self).wf(),
        ensures
            final(self).wf(),
            final(self).connected_set() == old(self).connected_set().remove(addr),
            final(self).pending == old(self).pending,
            final(self).hosts == old(self).hosts,
            final(self).state == old(self).state,
            final(self).settings == old(self).settings,
    {
        let ghost orig = self.channels@;
        remove_addr(&mut self.channels, addr);
        proof {
            orig.filter_lemma(|a2: u64| a2 != addr);
            lemma_filter_members(orig, |a2: u64| a2 != addr);
            assert forall|a: u64| #[trigger] self.channels@.to_set().contains(a) implies old(
                self,
            ).connected_set().remove(addr).contains(a) by {}
            assert forall|a: u64| #[trigger] old(self).connected_set().remove(addr).contains(
                a,
            ) implies self.channels@.to_set().contains(a) by {
                let i = choose|i: int| 0 <= i < orig.len() && orig[i] == a;
            }
            assert(self.channels@.to_set() =~= old(self).connected_set().remove(addr));
            lemma_filter_no_dup(orig, |a2: u64| a2 != addr);
            assert forall|i: int, j: int|
                0 <= i < self.pending@.len() && 0 <= j < self.channels@.len() implies
                self.pending@[i] != self.channels@[j] by {
                assert(self.channels@.contains(self.channels@[j]));
                assert(orig.contains(self.channels@[j]));
                let j0 = choose|j0: int| 0 <= j0 < orig.len() && orig[j0] == self.channels@[j];
            }
        }
    }

    /// Whether a channel with this address is connected.
    pub fn channel_exists(&self, addr: u64) -> (r: bool)
        ensures
            r == self.connected_set().contains(addr),
    {
        contains_addr(&self.channels, addr)
    }

    /// The number of connected channels.
    pub fn connections_count(&self) -> (r: usize)
        ensures
            r == self.channels@.len(),
    {
        self.channels.len()
    }

    /// Records a host address for later seeding and reconnection, ignoring
    /// a duplicate; returns whether it was new.
    pub fn store_host(&mut self, addr: u64) -> (r: bool)
        ensures
            r == !old(self).hosts@.contains(addr),
            r ==> final(self).hosts@ == old(self).hosts@.push(addr) && final(self).pending
                == old(self).pending && final(self).channels == old(self).channels
                && final(self).state == old(self).state && final(self).settings == old(
                self,
            ).settings,
            !r ==> *final(self) == *old(self),
    {
        if contains_addr(&self.hosts, addr) {
            false
        } else {
            self.hosts.push(addr);
            true
        }
    }

    /// The addresses one broadcast reaches: every connected channel, in
    /// connection order.
    pub fn broadcast_targets(&self) -> (r: Vec<u64>)
        ensures
            r@ == self.channels@,
    {
        let mut out: Vec<u64> = Vec::new();
        let mut i: usize = 0;
        while i < self.channels.len()
            invariant
                i <= self.channels@.len(),
                out@ == self.channels@.take(i as int),
            decreases self.channels@.len() - i,
        {
            out.push(self.channels[i]);
            proof {
                assert(out@ =~= self.channels@.take(i as int + 1));
            }
            i = i + 1;
        }
        proof {
            assert(self.channels@.take(self.channels@.len() as int) =~= self.channels@);
        }
        out
    }

    /// The addresses a broadcast with exclusions reaches: every connected
    /// channel whose address is not excluded, in connection order — and no
    /// excluded one.
    pub fn broadcast_targets_with_exclude(&self, exclude: &Vec<u64>) -> (r: Vec<u64>)
        requires
            self.wf(),
        ensures
            r@.no_duplicates(),
            forall|a: u64|
                #[trigger] r@.contains(a) ==> self.channels@.contains(a) && !exclude@.contains(a),
            forall|a: u64|
                self.channels@.contains(a) && !exclude@.contains(a) ==> r@.contains(a),
    {
        let mut out: Vec<u64> = Vec::new();
        let mut i: usize = 0;
        while i < self.channels.len()
            invariant
                self.wf(),
                i <= self.channels@.len(),
                out@.no_duplicates(),
                forall|a: u64|
                    #[trigger] out@.contains(a) ==> self.channels@.take(i as int).contains(a)
                        && !exclude@.contains(a),
                forall|j: int|
                    0 <= j < i && !exclude@.contains(self.channels@[j]) ==> out@.contains(
                        self.channels@[j],
                    ),
            decreases self.channels@.len() - i,
        {
            let a = self.channels[i];
            if !contains_addr(exclude, a) {
                proof {
                    if out@.contains(a) {
                        let k = choose|k: int|
                            0 <= k < self.channels@.take(i as int).len() && self.channels@.take(
                                i as int,
                            )[k] == a;
                        assert(self.channels@[k] == self.channels@[i as int]);
                    }
                }
                let ghost before = out@;
                out.push(a);
                proof {
                    assert forall|x: u64| #[trigger] out@.contains(x) implies self.channels@.take(
                        i as int + 1,
                    ).contains(x) && !exclude@.contains(x) by {
                        let k = choose|k: int| 0 <= k < out@.len() && out@[k] == x;
                        if k < before.len() {
                            assert(before.contains(x));
                            let k2 = choose|k2: int|
                                0 <= k2 < self.channels@.take(i as int).len()
                                    && self.channels@.take(i as int)[k2] == x;
                            assert(self.channels@.take(i as int + 1)[k2] == x);
                        } else {
                            assert(x == a);
                            assert(self.channels@.take(i as int + 1)[i as int] == a);
                        }
                    }
                    assert forall|j: int|
                        0 <= j < i + 1 && !exclude@.contains(self.channels@[j]) implies
                        out@.contains(self.channels@[j]) by {
                        if j < i {
                            assert(before.contains(self.channels@[j]));
                            let k = choose|k: int| 0 <= k < before.len() && before[k]
                                == self.channels@[j];
                            assert(out@[k] == self.channels@[j]);
                        } else {
                            assert(out@[out@.len() - 1] == self.channels@[j]);
                        }
                    }
                }
            } else {
                proof {
                    assert forall|x: u64| #[trigger] out@.contains(x) implies self.channels@.take(
                        i as int + 1,
                    ).contains(x) && !exclude@.contains(x) by {
                        let k2 = choose|k2: int|
                            0 <= k2 < self.channels@.take(i as int).len() && self.channels@.take(
                                i as int,
                            )[k2] == x;
                        assert(self.channels@.take(i as int + 1)[k2] == x);
                    }
                }
            }
            i = i + 1;
        }
        proof {
            assert(self.channels@.take(self.channels@.len() as int) =~= self.channels@);
            assert forall|a: u64| self.channels@.contains(a) && !exclude@.contains(a) implies
                out@.contains(a) by {
                let j = choose|j: int| 0 <= j < self.channels@.len() && self.channels@[j] == a;
            }
        }
        out
    }

    /// Whether startup waits for outbound connections at all: only when a
    /// seed or peer is configured and there is at least one outbound slot —
    /// otherwise a pure relay node must not block.
    pub fn needs_outbound_wait(&self) -> (r: bool)
        ensures
            r == (!(self.settings.seeds@.len() == 0 && self.settings.peers@.len() == 0)
                && self.settings.outbound_connections > 0),
    {
        !(self.settings.seeds.len() == 0 && self.settings.peers.len() == 0)
            && self.settings.outbound_connections > 0
    }

    /// The host addresses whose connection attempts startup waits for: every
    /// known host except the node's own inbound addresses — and none at all
    /// when no wait is needed.
    pub fn wait_for_outbound_addrs(&self) -> (r: Vec<u64>)
        ensures
            (!(!(self.settings.seeds@.len() == 0 && self.settings.peers@.len() == 0)
                && self.settings.outbound_connections > 0)) ==> r@ == Seq::<u64>::empty(),
            forall|a: u64|
                #[trigger] r@.contains(a) ==> self.hosts@.contains(a)
                    && !self.settings.external_addr@.contains(a),
            (!(self.settings.seeds@.len() == 0 && self.settings.peers@.len() == 0)
                && self.settings.outbound_connections > 0) ==> (forall|a: u64|
                self.hosts@.contains(a) && !self.settings.external_addr@.contains(a)
                    ==> r@.contains(a)),
    {
        if !self.needs_outbound_wait() {
            let out: Vec<u64> = Vec::new();
            proof {
                assert(out@ =~= Seq::<u64>::empty());
            }
            return out;
        }
        let mut out: Vec<u64> = Vec::new();
        let mut i: usize = 0;
        while i < self.hosts.len()
            invariant
                i <= self.hosts@.len(),
                forall|a: u64|
                    #[trigger] out@.contains(a) ==> self.hosts@.take(i as int).contains(a)
                        && !self.settings.external_addr@.contains(a),
                forall|j: int|
                    0 <= j < i && !self.settings.external_addr@.contains(self.hosts@[j])
                        ==> out@.contains(self.hosts@[j]),
            decreases self.hosts@.len() - i,
        {
            let a = self.hosts[i];
            if !contains_addr(&self.settings.external_addr, a) {
                let ghost before = out@;
                out.push(a);
                proof {
                    assert forall|x: u64| #[trigger] out@.contains(x) implies self.hosts@.take(
                        i as int + 1,
                    ).contains(x) && !self.settings.external_addr@.contains(x) by {
                        let k = choose|k: int| 0 <= k < out@.len() && out@[k] == x;
                        if k < before.len() {
                            assert(before.contains(x));
                            let k2 = choose|k2: int|
                                0 <= k2 < self.hosts@.take(i as int).len() && self.hosts@.take(
                                    i as int,
                                )[k2] == x;
                            assert(self.hosts@.take(i as int + 1)[k2] == x);
                        } else {
                            assert(x == a);
                            assert(self.hosts@.take(i as int + 1)[i as int] == a);
                        }
                    }
                    assert forall|j: int|
                        0 <= j < i + 1 && !self.settings.external_addr@.contains(self.hosts@[j])
                        implies out@.contains(self.hosts@[j]) by {
                        if j < i {
                            assert(before.contains(self.hosts@[j]));
                            let k = choose|k: int| 0 <= k < before.len() && before[k]
                                == self.hosts@[j];
                            assert(out@[k] == self.hosts@[j]);
                        } else {
                            assert(out@[out@.len() - 1] == self.hosts@[j]);
                        }
                    }
                }
            } else {
                proof {
                    assert forall|x: u64| #[trigger] out@.contains(x) implies self.hosts@.take(
                        i as int + 1,
                    ).contains(x) && !self.settings.external_addr@.contains(x) by {
                        let k2 = choose|k2: int|
                            0 <= k2 < self.hosts@.take(i as int).len() && self.hosts@.take(
                                i as int,
                            )[k2] == x;
                        assert(self.hosts@.take(i as int + 1)[k2] == x);
                    }
                }
            }
            i = i + 1;
        }
        proof {
            assert(self.hosts@.take(self.hosts@.len() as int) =~= self.hosts@);
            assert forall|a: u64|
                self.hosts@.contains(a) && !self.settings.external_addr@.contains(a) implies
                out@.contains(a) by {
                let j = choose|j: int| 0 <= j < self.hosts@.len() && self.hosts@[j] == a;
            }
        }
        out
    }
}

/// The pending/connected exclusivity law: under the invariant, no address is
/// in both sets; and a reservation for an address that is pending or
/// connected is refused without any change.
pub proof fn lemma_pending_connected_exclusive(p: P2p, addr: u64)
    requires
        p.wf(),
    ensures
        !(p.pending_set().contains(addr) && p.connected_set().contains(addr)),
{
    if p.pending_set().contains(addr) && p.connected_set().contains(addr) {
        let i = choose|i: int| 0 <= i < p.pending@.len() && p.pending@[i] == addr;
        let j = choose|j: int| 0 <= j < p.channels@.len() && p.channels@[j] == addr;
    }
}

} // verus!
