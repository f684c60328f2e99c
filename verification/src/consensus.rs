//! Consensus data types carried on the wire: participants, votes, and the
//! per-block metadata kept by the finality protocol.
//!
//! Cryptographic material (public keys, addresses, signatures, eligibility
//! proofs) is opaque to the tally logic: each piece is modelled as a plain
//! integer token. Producing and checking the real cryptography belongs to a
//! collaborator outside this library.

use vstd::prelude::*;

use crate::error::Error;
use crate::serial::{encode_vec, decode_vec, vec_enc, vec_dec, seq_enc_fits, seq_deep_view,
    lemma_vec_enc_dec, Encodable, Decodable};

verus! {

/// A typed wire message: each message kind carries a stable textual
/// discriminator in its outer frame.
pub trait Message {
    /// The message kind's discriminator.
    fn name() -> &'static str;
}

// ---------------------------------------------------------------------------
// Participant
// ---------------------------------------------------------------------------

/// A consensus-eligible node for an epoch: identity key, network address,
/// the slot it joined, the last slot it voted (if ever), and the slot it was
/// quarantined (if it is suspended).
#[derive(Debug, Clone, Copy, PartialEq, Eq, Structural)]
pub struct Participant {
    /// Node public key (identity).
    pub public_key: u64,
    /// Node wallet address.
    pub address: u64,
    /// Slot the node joined the network.
    pub joined: u64,
    /// Last slot the node voted.
    pub voted: Option<u64>,
    /// Slot the participant was quarantined, if it is.
    pub quarantined: Option<u64>,
}

impl View for Participant {
    type V = Participant;

    open spec fn view(&self) -> Participant {
        *self
    }
}

impl DeepView for Participant {
    type V = Participant;

    open spec fn deep_view(&self) -> Participant {
        *self
    }
}

impl Participant {
    /// A participant that just joined: it has neither voted nor been
    /// quarantined.
    pub fn new(public_key: u64, address: u64, joined: u64) -> (r: Self)
        ensures
            r == (Participant { public_key, address, joined, voted: None, quarantined: None }),
    {
        Self { public_key, address, joined, voted: None, quarantined: None }
    }

    /// The wire layout of a participant, as nested pairs.
    pub open spec fn repr_spec(&self) -> (u64, (u64, (u64, (Option<u64>, Option<u64>)))) {
        (self.public_key, (self.address, (self.joined, (self.voted, self.quarantined))))
    }

    fn repr(&self) -> (r: (u64, (u64, (u64, (Option<u64>, Option<u64>)))))
        ensures
            r == self.repr_spec(),
    {
        (self.public_key, (self.address, (self.joined, (self.voted, self.quarantined))))
    }
}

impl Message for Participant {
    fn name() -> &'static str {
        "participant"
    }
}

impl Encodable for Participant {
    open spec fn enc(&self) -> Seq<u8> {
        self.repr_spec().enc()
    }

    open spec fn enc_fits(&self) -> bool {
        true
    }

    fn encode(&self, s: &mut Vec<u8>) -> (n: usize) {
        self.repr().encode(s)
    }
}

impl Decodable for Participant {
    open spec fn dec(data: Seq<u8>) -> Result<(Self::V, int), Error> {
        match <(u64, (u64, (u64, (Option<u64>, Option<u64>))))>::dec(data) {
            Ok(((public_key, (address, (joined, (voted, quarantined)))), k)) => Ok((
                Participant { public_key, address, joined, voted, quarantined },
                k,
            )),
            Err(e) => Err(e),
        }
    }

    fn decode(data: &[u8], pos: usize) -> (r: Result<(Self, usize), Error>) {
        match <(u64, (u64, (u64, (Option<u64>, Option<u64>))))>::decode(data, pos) {
            Ok(((public_key, (address, (joined, (voted, quarantined)))), end)) => Ok((
                Participant { public_key, address, joined, voted, quarantined },
                end,
            )),
            Err(e) => Err(e),
        }
    }

    proof fn lemma_enc_dec(v: Self, rest: Seq<u8>) {
        <(u64, (u64, (u64, (Option<u64>, Option<u64>))))>::lemma_enc_dec(v.repr_spec(), rest);
    }
}

// ---------------------------------------------------------------------------
// Vote
// ---------------------------------------------------------------------------

/// A participant's signed endorsement of one block at one slot. Immutable
/// once created; the signature and eligibility proof are opaque tokens.
#[derive(Debug, Clone, Copy, PartialEq, Eq, Structural)]
pub struct Vote {
    /// The voter's public key.
    pub public_key: u64,
    /// The block this vote endorses.
    pub block: u64,
    /// The slot the block occupies.
    pub slot: u64,
    /// Signature over the vote (opaque token).
    pub signature: u64,
    /// Slot-eligibility proof (opaque token).
    pub proof: u64,
}

impl View for Vote {
    type V = Vote;

    open spec fn view(&self) -> Vote {
        *self
    }
}

impl DeepView for Vote {
    type V = Vote;

    open spec fn deep_view(&self) -> Vote {
        *self
    }
}

impl Vote {
    pub fn new(public_key: u64, block: u64, slot: u64, signature: u64, proof: u64) -> (r: Self)
        ensures
            r == (Vote { public_key, block, slot, signature, proof }),
    {
        Self { public_key, block, slot, signature, proof }
    }

    /// The wire layout of a vote, as nested pairs.
    pub open spec fn repr_spec(&self) -> (u64, (u64, (u64, (u64, u64)))) {
        (self.public_key, (self.block, (self.slot, (self.signature, self.proof))))
    }

    fn repr(&self) -> (r: (u64, (u64, (u64, (u64, u64)))))
        ensures
            r == self.repr_spec(),
    {
        (self.public_key, (self.block, (self.slot, (self.signature, self.proof))))
    }
}

impl Message for Vote {
    fn name() -> &'static str {
        "vote"
    }
}

impl Encodable for Vote {
    open spec fn enc(&self) -> Seq<u8> {
        self.repr_spec().enc()
    }

    open spec fn enc_fits(&self) -> bool {
        true
    }

    fn encode(&self, s: &mut Vec<u8>) -> (n: usize) {
        self.repr().encode(s)
    }
}

impl Decodable for Vote {
    open spec fn dec(data: Seq<u8>) -> Result<(Self::V, int), Error> {
        match <(u64, (u64, (u64, (u64, u64))))>::dec(data) {
            Ok(((public_key, (block, (slot, (signature, proof)))), k)) => Ok((
                Vote { public_key, block, slot, signature, proof },
                k,
            )),
            Err(e) => Err(e),
        }
    }

    fn decode(data: &[u8], pos: usize) -> (r: Result<(Self, usize), Error>) {
        match <(u64, (u64, (u64, (u64, u64))))>::decode(data, pos) {
            Ok(((public_key, (block, (slot, (signature, proof)))), end)) => Ok((
                Vote { public_key, block, slot, signature, proof },
                end,
            )),
            Err(e) => Err(e),
        }
    }

    proof fn lemma_enc_dec(v: Self, rest: Seq<u8>) {
        <(u64, (u64, (u64, (u64, u64))))>::lemma_enc_dec(v.repr_spec(), rest);
    }
}

// ---------------------------------------------------------------------------
// Keep-alive
// ---------------------------------------------------------------------------

/// A keep-alive message: a node address and a signature over it.
#[derive(Debug, Clone, Copy, PartialEq, Eq, Structural)]
pub struct KeepAlive {
    /// Leader address.
    pub address: u64,
    /// Address signature (opaque token).
    pub signature: u64,
}

impl View for KeepAlive {
    type V = KeepAlive;

    open spec fn view(&self) -> KeepAlive {
        *self
    }
}

impl DeepView for KeepAlive {
    type V = KeepAlive;

    open spec fn deep_view(&self) -> KeepAlive {
        *self
    }
}

impl Message for KeepAlive {
    fn name() -> &'static str {
        "keepalive"
    }
}

impl Encodable for KeepAlive {
    open spec fn enc(&self) -> Seq<u8> {
        (self.address, self.signature).enc()
    }

    open spec fn enc_fits(&self) -> bool {
        true
    }

    fn encode(&self, s: &mut Vec<u8>) -> (n: usize) {
        (self.address, self.signature).encode(s)
    }
}

impl Decodable for KeepAlive {
    open spec fn dec(data: Seq<u8>) -> Result<(Self::V, int), Error> {
        match <(u64, u64)>::dec(data) {
            Ok(((address, signature), k)) => Ok((KeepAlive { address, signature }, k)),
            Err(e) => Err(e),
        }
    }

    fn decode(data: &[u8], pos: usize) -> (r: Result<(Self, usize), Error>) {
        match <(u64, u64)>::decode(data, pos) {
            Ok(((address, signature), end)) => Ok((KeepAlive { address, signature }, end)),
            Err(e) => Err(e),
        }
    }

    proof fn lemma_enc_dec(v: Self, rest: Seq<u8>) {
        <(u64, u64)>::lemma_enc_dec((v.address, v.signature), rest);
    }
}

// ---------------------------------------------------------------------------
// Vectors of participants and votes
// ---------------------------------------------------------------------------

impl Encodable for Vec<Participant> {
    open spec fn enc(&self) -> Seq<u8> {
        vec_enc(self@)
    }

    open spec fn enc_fits(&self) -> bool {
        self@.len() <= u64::MAX && seq_enc_fits(self@)
    }

    fn encode(&self, s: &mut Vec<u8>) -> (n: usize) {
        encode_vec(self, s)
    }
}

impl Decodable for Vec<Participant> {
    open spec fn dec(data: Seq<u8>) -> Result<(Self::V, int), Error> {
        vec_dec::<Participant>(data)
    }

    fn decode(data: &[u8], pos: usize) -> (r: Result<(Self, usize), Error>) {
        decode_vec::<Participant>(data, pos)
    }

    proof fn lemma_enc_dec(v: Self, rest: Seq<u8>) {
        lemma_vec_enc_dec::<Participant>(v@, rest);
        assert(v.deep_view() =~= seq_deep_view(v@));
    }
}

impl Encodable for Vec<Vote> {
    open spec fn enc(&self) -> Seq<u8> {
        vec_enc(self@)
    }

    open spec fn enc_fits(&self) -> bool {
        self@.len() <= u64::MAX && seq_enc_fits(self@)
    }

    fn encode(&self, s: &mut Vec<u8>) -> (n: usize) {
        encode_vec(self, s)
    }
}

impl Decodable for Vec<Vote> {
    open spec fn dec(data: Seq<u8>) -> Result<(Self::V, int), Error> {
        vec_dec::<Vote>(data)
    }

    fn decode(data: &[u8], pos: usize) -> (r: Result<(Self, usize), Error>) {
        decode_vec::<Vote>(data, pos)
    }

    proof fn lemma_enc_dec(v: Self, rest: Seq<u8>) {
        lemma_vec_enc_dec::<Vote>(v@, rest);
        assert(v.deep_view() =~= seq_deep_view(v@));
    }
}

// ---------------------------------------------------------------------------
// The address-keyed roster index
// ---------------------------------------------------------------------------

/// Whether a participant batch holds an entry with the given address.
pub open spec fn has_address(s: Seq<Participant>, addr: u64) -> bool {
    exists|i: int| 0 <= i < s.len() && s[i].address == addr
}

/// Whether `q` is the last entry of `ps` carrying its address: what survives
/// when a batch is keyed by address, later entries winning.
pub open spec fn last_keyed(ps: Seq<Participant>, q: Participant) -> bool {
    exists|i: int|
        0 <= i < ps.len() && ps[i] == q && (forall|j: int|
            i < j < ps.len() ==> ps[j].address != q.address)
}

/// The roster index keyed by wallet address: entries are kept in strictly
/// ascending address order (so addresses are unique), and its wire form is
/// the count followed by the entries in that order.
#[derive(Debug, Clone, PartialEq)]
pub struct ParticipantMap {
    /// The entries, sorted by address.
    pub entries: Vec<Participant>,
}

impl ParticipantMap {
    /// The key invariant: strictly ascending addresses.
    pub open spec fn wf(&self) -> bool {
        forall|i: int, j: int|
            0 <= i < j < self.entries@.len() ==> self.entries@[i].address
                < self.entries@[j].address
    }

    /// An empty index.
    pub fn new() -> (r: Self)
        ensures
            r.wf(),
            r.entries@ == Seq::<Participant>::empty(),
    {
        let r = Self { entries: Vec::new() };
        proof {
            assert(r.entries@ =~= Seq::<Participant>::empty());
        }
        r
    }

    /// The number of entries.
    pub fn len(&self) -> (r: usize)
        ensures
            r == self.entries@.len(),
    {
        self.entries.len()
    }

    /// The entry at the given address, if any.
    pub fn get(&self, addr: u64) -> (r: Option<Participant>)
        requires
            self.wf(),
        ensures
            match r {
                Some(p) => self.entries@.contains(p) && p.address == addr,
                None => !has_address(self.entries@, addr),
            },
    {
        let mut i: usize = 0;
        while i < self.entries.len()
            invariant
                i <= self.entries@.len(),
                forall|j: int| 0 <= j < i ==> self.entries@[j].address != addr,
            decreases self.entries@.len() - i,
        {
            if self.entries[i].address == addr {
                proof {
                    assert(self.entries@.contains(self.entries@[i as int]));
                }
                return Some(self.entries[i]);
            }
            i = i + 1;
        }
        proof {
            if has_address(self.entries@, addr) {
                let j = choose|j: int|
                    0 <= j < self.entries@.len() && self.entries@[j].address == addr;
            }
        }
        None
    }

    /// Keys `p` by its address: an entry with the same address is replaced,
    /// any other entry is kept — exactly an ordered map's insert.
    pub fn insert(&mut self, p: Participant)
        requires
            old(self).wf(),
        ensures
            final(self).wf(),
            forall|q: Participant|
                final(self).entries@.contains(q) <==> (q == p || (old(self).entries@.contains(q)
                    && q.address != p.address)),
    {
        let ghost orig = self.entries@;
        let mut i: usize = 0;
        while i < self.entries.len() && self.entries[i].address < p.address
            invariant
                self.entries@ == orig,
                i <= orig.len(),
                forall|j: int| 0 <= j < i ==> orig[j].address < p.address,
            decreases orig.len() - i,
        {
            i = i + 1;
        }
        if i < self.entries.len() && self.entries[i].address == p.address {
            let slot = &mut self.entries[i];
            *slot = p;
            proof {
                assert(self.entries@ == orig.update(i as int, p));
                assert forall|q: Participant| #[trigger] self.entries@.contains(q) implies (q == p
                    || (orig.contains(q) && q.address != p.address)) by {
                    let k = choose|k: int|
                        0 <= k < self.entries@.len() && self.entries@[k] == q;
                    if k != i {
                        assert(orig[k] == q);
                        if q.address == p.address {
                            assert(orig[k].address == orig[i as int].address);
                            if k < i {
                                assert(orig[k].address < orig[i as int].address);
                            } else {
                                assert(orig[i as int].address < orig[k].address);
                            }
                        }
                    }
                }
                assert forall|q: Participant| (q == p || (orig.contains(q) && q.address
                    != p.address)) implies #[trigger] self.entries@.contains(q) by {
                    if q == p {
                        assert(self.entries@[i as int] == q);
                    } else {
                        let k = choose|k: int| 0 <= k < orig.len() && orig[k] == q;
                        assert(k != i);
                        assert(self.entries@[k] == q);
                    }
                }
            }
        } else {
            proof {
                if i < orig.len() {
                    assert(p.address < orig[i as int].address);
                }
            }
            self.entries.insert(i, p);
            proof {
                assert(self.entries@ == orig.insert(i as int, p));
                assert forall|a: int, b: int|
                    0 <= a < b < self.entries@.len() implies self.entries@[a].address
                    < self.entries@[b].address by {
                    assert(self.entries@[a] == (if a < i {
                        orig[a]
                    } else if a == i {
                        p
                    } else {
                        orig[a - 1]
                    }));
                    assert(self.entries@[b] == (if b < i {
                        orig[b]
                    } else if b == i {
                        p
                    } else {
                        orig[b - 1]
                    }));
                }
                assert forall|q: Participant| #[trigger] self.entries@.contains(q) implies (q == p
                    || (orig.contains(q) && q.address != p.address)) by {
                    let k = choose|k: int|
                        0 <= k < self.entries@.len() && self.entries@[k] == q;
                    if k != i {
                        let k0: int = if k < i {
                            k
                        } else {
                            k - 1
                        };
                        assert(orig[k0] == q);
                        if q.address == p.address {
                            if k0 < i {
                                assert(orig[k0].address < p.address);
                            } else {
                                assert(p.address < orig[k0].address);
                            }
                        }
                    }
                }
                assert forall|q: Participant| (q == p || (orig.contains(q) && q.address
                    != p.address)) implies #[trigger] self.entries@.contains(q) by {
                    if q == p {
                        assert(self.entries@[i as int] == q);
                    } else {
                        let k = choose|k: int| 0 <= k < orig.len() && orig[k] == q;
                        if k < i {
                            assert(self.entries@[k] == q);
                        } else {
                            assert(self.entries@[k + 1] == q);
                        }
                    }
                }
            }
        }
    }

    /// Reads an index from its wire form: a count, then entries that are
    /// keyed by address one after the other, the last entry per address
    /// winning — exactly what re-inserting a decoded batch produces.
    pub fn decode_map(data: &[u8], pos: usize) -> (r: Result<(Self, usize), Error>)
        requires
            pos <= data@.len(),
        ensures
            match r {
                Ok((m, end)) => pos <= end <= data@.len() && m.wf() && (match vec_dec::<
                    Participant,
                >(data@.skip(pos as int)) {
                    Ok((ps, k)) => end - pos == k && (forall|q: Participant|
                        m.entries@.contains(q) <==> #[trigger] last_keyed(ps, q)),
                    Err(_) => false,
                }),
                Err(e) => vec_dec::<Participant>(data@.skip(pos as int)) == Err::<
                    (Seq<Participant>, int),
                    Error,
                >(e),
            },
    {
        match decode_vec::<Participant>(data, pos) {
            Ok((batch, end)) => {
                let ghost ps = batch.deep_view();
                proof {
                    assert(ps =~= seq_deep_view(batch@));
                    assert(forall|i: int| 0 <= i < batch@.len() ==> ps[i] == #[trigger] batch@[i]);
                }
                let mut m = Self::new();
                let mut t: usize = 0;
                proof {
                    assert forall|q: Participant| !(#[trigger] last_keyed(ps.take(0), q)) by {}
                }
                while t < batch.len()
                    invariant
                        t <= batch@.len(),
                        pos <= end <= data@.len(),
                        vec_dec::<Participant>(data@.skip(pos as int)) == Ok::<
                            (Seq<Participant>, int),
                            Error,
                        >((ps, end - pos)),
                        ps.len() == batch@.len(),
                        forall|i: int| 0 <= i < batch@.len() ==> ps[i] == #[trigger] batch@[i],
                        m.wf(),
                        forall|q: Participant|
                            m.entries@.contains(q) <==> #[trigger] last_keyed(
                                ps.take(t as int),
                                q,
                            ),
                    decreases batch@.len() - t,
                {
                    let ghost before = m.entries@;
                    m.insert(batch[t]);
                    proof {
                        let pt = ps[t as int];
                        let pre = ps.take(t as int);
                        let cur = ps.take(t as int + 1);
                        assert(cur.len() == t + 1 && cur[t as int] == pt);
                        assert(forall|j: int| 0 <= j < t ==> cur[j] == #[trigger] pre[j]);
                        assert forall|q: Participant| m.entries@.contains(q) implies #[trigger]
                        last_keyed(cur, q) by {
                            if q == pt {
                                assert(cur[t as int] == q && (forall|j: int|
                                    t < j < cur.len() ==> cur[j].address != q.address));
                            } else {
                                assert(before.contains(q) && q.address != pt.address);
                                assert(last_keyed(pre, q));
                                let i = choose|i: int|
                                    0 <= i < pre.len() && pre[i] == q && (forall|j: int|
                                        i < j < pre.len() ==> pre[j].address != q.address);
                                assert(cur[i] == q);
                                assert forall|j: int|
                                    i < j < cur.len() implies cur[j].address != q.address by {
                                    if j < t {
                                        assert(cur[j] == pre[j]);
                                    }
                                }
                            }
                        }
                        assert forall|q: Participant| #[trigger]
                        last_keyed(cur, q) implies m.entries@.contains(q) by {
                            let i = choose|i: int|
                                0 <= i < cur.len() && cur[i] == q && (forall|j: int|
                                    i < j < cur.len() ==> cur[j].address != q.address);
                            if i == t {
                                assert(q == pt);
                            } else {
                                assert(pre[i] == q);
                                assert(cur[t as int].address != q.address);
                                assert forall|j: int|
                                    i < j < pre.len() implies pre[j].address != q.address by {
                                    assert(cur[j] == pre[j]);
                                }
                                assert(last_keyed(pre, q));
                                assert(q.address != pt.address);
                            }
                        }
                    }
                    t = t + 1;
                }
                proof {
                    assert(ps.take(ps.len() as int) =~= ps);
                }
                Ok((m, end))
            },
            Err(e) => Err(e),
        }
    }
}

impl Encodable for ParticipantMap {
    open spec fn enc(&self) -> Seq<u8> {
        vec_enc(self.entries@)
    }

    open spec fn enc_fits(&self) -> bool {
        self.entries@.len() <= u64::MAX && seq_enc_fits(self.entries@)
    }

    fn encode(&self, s: &mut Vec<u8>) -> (n: usize) {
        encode_vec(&self.entries, s)
    }
}

// ---------------------------------------------------------------------------
// Per-block metadata
// ---------------------------------------------------------------------------

/// Block information used by the block-proposal protocol: owner proof,
/// randomness seed, owner signature, and the roster of participants active
/// at creation. Attached once, never mutated.
#[derive(Debug, Clone, PartialEq, Eq)]
pub struct Metadata {
    /// Proof that the stakeholder is the block owner.
    pub proof: String,
    /// Random seed for the lottery.
    pub rand_seed: String,
    /// Block owner signature.
    pub signature: String,
    /// Nodes participating in the consensus process.
    pub participants: Vec<Participant>,
}

/// The abstract contents of a [`Metadata`].
pub struct MetadataView {
    pub proof: Seq<char>,
    pub rand_seed: Seq<char>,
    pub signature: Seq<char>,
    pub participants: Seq<Participant>,
}

impl DeepView for Metadata {
    type V = MetadataView;

    open spec fn deep_view(&self) -> MetadataView {
        MetadataView {
            proof: self.proof@,
            rand_seed: self.rand_seed@,
            signature: self.signature@,
            participants: self.participants@,
        }
    }
}

impl Metadata {
    pub fn new(
        proof: String,
        rand_seed: String,
        signature: String,
        participants: Vec<Participant>,
    ) -> (r: Self)
        ensures
            r.proof == proof,
            r.rand_seed == rand_seed,
            r.signature == signature,
            r.participants == participants,
    {
        Self { proof, rand_seed, signature, participants }
    }
}

impl Encodable for Metadata {
    open spec fn enc(&self) -> Seq<u8> {
        self.proof.enc() + self.rand_seed.enc() + self.signature.enc() + self.participants.enc()
    }

    open spec fn enc_fits(&self) -> bool {
        self.proof.enc_fits() && self.rand_seed.enc_fits() && self.signature.enc_fits()
            && self.participants.enc_fits()
    }

    fn encode(&self, s: &mut Vec<u8>) -> (n: usize) {
        let start = s.len();
        let _ = self.proof.encode(s);
        let _ = self.rand_seed.encode(s);
        let _ = self.signature.encode(s);
        let _ = self.participants.encode(s);
        proof {
            assert(s@ =~= old(s)@ + self.enc());
        }
        s.len() - start
    }
}

impl Decodable for Metadata {
    open spec fn dec(data: Seq<u8>) -> Result<(Self::V, int), Error> {
        match <(String, (String, (String, Vec<Participant>)))>::dec(data) {
            Ok(((proof, (rand_seed, (signature, participants))), k)) => Ok((
                MetadataView { proof, rand_seed, signature, participants },
                k,
            )),
            Err(e) => Err(e),
        }
    }

    fn decode(data: &[u8], pos: usize) -> (r: Result<(Self, usize), Error>) {
        match <(String, (String, (String, Vec<Participant>)))>::decode(data, pos) {
            Ok(((proof, (rand_seed, (signature, participants))), end)) => {
                proof {
                    assert(participants.deep_view() =~= participants@);
                }
                Ok((Metadata { proof, rand_seed, signature, participants }, end))
            },
            Err(e) => Err(e),
        }
    }

    proof fn lemma_enc_dec(v: Self, rest: Seq<u8>) {
        let repr = (v.proof, (v.rand_seed, (v.signature, v.participants)));
        assert(repr.enc() =~= v.enc());
        <(String, (String, (String, Vec<Participant>)))>::lemma_enc_dec(repr, rest);
        assert(v.participants.deep_view() =~= v.participants@);
    }
}

// ---------------------------------------------------------------------------
// Streamlet metadata
// ---------------------------------------------------------------------------

/// Block information used by the finality protocol: the votes collected so
/// far (deduplicated by voter), and the notarization and finalization flags.
/// The vote collection is append-only and the flags flip false-to-true only.
#[derive(Debug, Clone, PartialEq)]
pub struct StreamletMetadata {
    /// Slot votes.
    pub votes: Vec<Vote>,
    /// Block notarization flag.
    pub notarized: bool,
    /// Block finalization flag.
    pub finalized: bool,
}

/// The abstract contents of a [`StreamletMetadata`].
pub struct StreamletMetadataView {
    pub votes: Seq<Vote>,
    pub notarized: bool,
    pub finalized: bool,
}

impl DeepView for StreamletMetadata {
    type V = StreamletMetadataView;

    open spec fn deep_view(&self) -> StreamletMetadataView {
        StreamletMetadataView {
            votes: self.votes@,
            notarized: self.notarized,
            finalized: self.finalized,
        }
    }
}

impl StreamletMetadata {
    /// Fresh metadata: no votes, not notarized, not finalized.
    pub fn new() -> (r: Self)
        ensures
            r.votes@ == Seq::<Vote>::empty(),
            !r.notarized,
            !r.finalized,
    {
        Self { votes: Vec::new(), notarized: false, finalized: false }
    }
}

impl Encodable for StreamletMetadata {
    open spec fn enc(&self) -> Seq<u8> {
        self.votes.enc() + self.notarized.enc() + self.finalized.enc()
    }

    open spec fn enc_fits(&self) -> bool {
        self.votes.enc_fits()
    }

    fn encode(&self, s: &mut Vec<u8>) -> (n: usize) {
        let start = s.len();
        let _ = self.votes.encode(s);
        let _ = self.notarized.encode(s);
        let _ = self.finalized.encode(s);
        proof {
            assert(s@ =~= old(s)@ + self.enc());
        }
        s.len() - start
    }
}

impl Decodable for StreamletMetadata {
    open spec fn dec(data: Seq<u8>) -> Result<(Self::V, int), Error> {
        match <(Vec<Vote>, (bool, bool))>::dec(data) {
            Ok(((votes, (notarized, finalized)), k)) => Ok((
                StreamletMetadataView { votes, notarized, finalized },
                k,
            )),
            Err(e) => Err(e),
        }
    }

    fn decode(data: &[u8], pos: usize) -> (r: Result<(Self, usize), Error>) {
        match <(Vec<Vote>, (bool, bool))>::decode(data, pos) {
            Ok(((votes, (notarized, finalized)), end)) => {
                proof {
                    assert(votes.deep_view() =~= votes@);
                }
                Ok((StreamletMetadata { votes, notarized, finalized }, end))
            },
            Err(e) => Err(e),
        }
    }

    proof fn lemma_enc_dec(v: Self, rest: Seq<u8>) {
        let repr = (v.votes, (v.notarized, v.finalized));
        assert(repr.enc() =~= v.enc());
        <(Vec<Vote>, (bool, bool))>::lemma_enc_dec(repr, rest);
        assert(v.votes.deep_view() =~= v.votes@);
    }
}

} // verus!
