//! The vote-tally and block-finalization state machine.
//!
//! A [`Validator`] holds the local chain view (blocks with their vote
//! tallies) and the roster of participants. [`Validator::receive_vote`]
//! is the single entry point that consumes one vote: it either rejects it
//! with a [`VoteError`] and changes nothing, or tallies it, re-checks
//! notarization and finalization, and possibly casts the local node's own
//! vote. The whole transition is pinned down by the spec function [`step`],
//! and the protocol laws (order independence, monotonicity, no double
//! counting, quorum boundary, the finalization chain rule) are proved of
//! `step` in `laws`.

use vstd::prelude::*;

use crate::consensus::{Participant, StreamletMetadata, Vote};

verus! {

/// Why a vote is rejected. Rejected votes change no state.
#[derive(Debug, Clone, Copy, PartialEq, Eq, Structural)]
pub enum VoteError {
    /// The voter is not in the active roster for the vote's slot.
    UnknownParticipant,
    /// The voter is quarantined.
    Quarantined,
    /// The voter already voted for a different block at this slot.
    Equivocation,
    /// The target block is not known locally.
    UnknownBlock,
    /// The vote names a slot other than its target block's slot.
    SlotMismatch,
}

/// One block of the local chain view: its identity, slot, parent link, and
/// the finality-protocol metadata.
#[derive(Debug, Clone, PartialEq)]
pub struct BlockRecord {
    /// Block id.
    pub id: u64,
    /// The slot the block occupies.
    pub slot: u64,
    /// The id of the parent block, if the parent is known.
    pub parent: Option<u64>,
    /// Votes and finality flags.
    pub sm: StreamletMetadata,
}

/// The abstract contents of a [`BlockRecord`].
pub struct BlockModel {
    pub id: u64,
    pub slot: u64,
    pub parent: Option<u64>,
    pub votes: Seq<Vote>,
    pub notarized: bool,
    pub finalized: bool,
}

impl DeepView for BlockRecord {
    type V = BlockModel;

    open spec fn deep_view(&self) -> BlockModel {
        BlockModel {
            id: self.id,
            slot: self.slot,
            parent: self.parent,
            votes: self.sm.votes@,
            notarized: self.sm.notarized,
            finalized: self.sm.finalized,
        }
    }
}

impl BlockRecord {
    /// A freshly accepted block: no votes, no flags.
    pub fn new(id: u64, slot: u64, parent: Option<u64>) -> (r: Self)
        ensures
            r.deep_view() == (BlockModel {
                id,
                slot,
                parent,
                votes: Seq::<Vote>::empty(),
                notarized: false,
                finalized: false,
            }),
    {
        let r = Self { id, slot, parent, sm: StreamletMetadata::new() };
        proof {
            assert(r.sm.votes@ =~= Seq::<Vote>::empty());
        }
        r
    }
}

/// The abstract state of a [`Validator`].
pub struct ValidatorModel {
    /// The local node's public key.
    pub id: u64,
    /// The opaque signature token the local node puts on its own votes.
    pub signature: u64,
    /// The opaque eligibility token the local node puts on its own votes.
    pub proof: u64,
    /// The per-epoch roster of participants.
    pub participants: Seq<Participant>,
    /// The chain view.
    pub blocks: Seq<BlockModel>,
}

// ---------------------------------------------------------------------------
// Roster
// ---------------------------------------------------------------------------

/// Whether a participant may vote at `slot`: it has joined by then and is
/// not quarantined.
pub open spec fn eligible(p: Participant, slot: u64) -> bool {
    p.joined <= slot && p.quarantined is None
}

/// The number of participants eligible at `slot` (the roster size the
/// quorum is measured against).
pub open spec fn roster_size(ps: Seq<Participant>, slot: u64) -> nat
    decreases ps.len(),
{
    if ps.len() == 0 {
        0
    } else {
        (if eligible(ps[0], slot) {
            1nat
        } else {
            0nat
        }) + roster_size(ps.drop_first(), slot)
    }
}

/// The notarization threshold for a roster of `r` participants:
/// the least weight that is at least two thirds of `r`.
pub open spec fn quorum(r: nat) -> nat {
    ((2 * r + 2) / 3) as nat
}

/// The first participant with the given key, if any.
pub open spec fn participant_of(ps: Seq<Participant>, key: u64) -> Option<Participant>
    decreases ps.len(),
{
    if ps.len() == 0 {
        None
    } else if ps[0].public_key == key {
        Some(ps[0])
    } else {
        participant_of(ps.drop_first(), key)
    }
}

/// `participant_of` finds exactly the first index whose key matches.
pub proof fn lemma_participant_of_first(ps: Seq<Participant>, key: u64)
    ensures
        match participant_of(ps, key) {
            Some(p) => exists|i: int|
                0 <= i < ps.len() && ps[i] == p && ps[i].public_key == key && (forall|j: int|
                    0 <= j < i ==> ps[j].public_key != key),
            None => forall|j: int| 0 <= j < ps.len() ==> ps[j].public_key != key,
        },
    decreases ps.len(),
{
    if ps.len() > 0 && ps[0].public_key != key {
        lemma_participant_of_first(ps.drop_first(), key);
        let tail = ps.drop_first();
        match participant_of(tail, key) {
            Some(p) => {
                let i = choose|i: int|
                    0 <= i < tail.len() && tail[i] == p && tail[i].public_key == key && (forall|
                        j: int,
                    | 0 <= j < i ==> tail[j].public_key != key);
                assert(forall|j: int| 1 <= j < ps.len() ==> ps[j] == tail[j - 1]);
                assert(ps[i + 1] == p && ps[i + 1].public_key == key);
                assert(forall|j: int| 0 <= j < i + 1 ==> ps[j].public_key != key);
            },
            None => {
                assert(forall|j: int| 1 <= j < ps.len() ==> ps[j] == tail[j - 1]);
            },
        }
    }
}

/// If some index matches, `participant_of` does not return `None`.
pub proof fn lemma_participant_of_some(ps: Seq<Participant>, key: u64, i: int)
    requires
        0 <= i < ps.len(),
        ps[i].public_key == key,
    ensures
        participant_of(ps, key) is Some,
        participant_of(ps, key)->Some_0.public_key == key,
    decreases ps.len(),
{
    if ps[0].public_key != key {
        assert(ps.drop_first()[i - 1] == ps[i]);
        lemma_participant_of_some(ps.drop_first(), key, i - 1);
    }
}

// ---------------------------------------------------------------------------
// Blocks and votes
// ---------------------------------------------------------------------------

/// Whether some vote in `votes` was cast by `key`.
pub open spec fn has_voter(votes: Seq<Vote>, key: u64) -> bool {
    exists|i: int| 0 <= i < votes.len() && votes[i].public_key == key
}

/// The index of the first block with the given id, if any.
pub open spec fn block_index_of(blocks: Seq<BlockModel>, id: u64) -> Option<int>
    decreases blocks.len(),
{
    if blocks.len() == 0 {
        None
    } else if blocks[0].id == id {
        Some(0)
    } else {
        match block_index_of(blocks.drop_first(), id) {
            Some(i) => Some(i + 1),
            None => None,
        }
    }
}

/// `block_index_of` finds exactly the first index whose id matches.
pub proof fn lemma_block_index_of_first(blocks: Seq<BlockModel>, id: u64)
    ensures
        match block_index_of(blocks, id) {
            Some(i) => 0 <= i < blocks.len() && blocks[i].id == id && (forall|j: int|
                0 <= j < i ==> blocks[j].id != id),
            None => forall|j: int| 0 <= j < blocks.len() ==> blocks[j].id != id,
        },
    decreases blocks.len(),
{
    if blocks.len() > 0 && blocks[0].id != id {
        lemma_block_index_of_first(blocks.drop_first(), id);
        let tail = blocks.drop_first();
        assert(forall|j: int| 1 <= j < blocks.len() ==> blocks[j] == tail[j - 1]);
    }
}

/// Whether `vote`'s voter already voted for a different block at the same
/// slot anywhere in the chain view.
pub open spec fn equivocates(blocks: Seq<BlockModel>, vote: Vote) -> bool {
    exists|b: int, i: int|
        0 <= b < blocks.len() && 0 <= i < blocks[b].votes.len() && blocks[b].id != vote.block
            && blocks[b].slot == vote.slot && blocks[b].votes[i].public_key == vote.public_key
}

// ---------------------------------------------------------------------------
// The transition, in stages
// ---------------------------------------------------------------------------

/// The reason `vote` is rejected by state `m`, if it is. Checks run in this
/// order: unknown or not-yet-joined voter, quarantined voter, equivocation,
/// unknown block, slot mismatch.
pub open spec fn reject_reason(m: ValidatorModel, vote: Vote) -> Option<VoteError> {
    match participant_of(m.participants, vote.public_key) {
        None => Some(VoteError::UnknownParticipant),
        Some(p) => {
            if p.quarantined is Some {
                Some(VoteError::Quarantined)
            } else if p.joined > vote.slot {
                Some(VoteError::UnknownParticipant)
            } else if equivocates(m.blocks, vote) {
                Some(VoteError::Equivocation)
            } else {
                match block_index_of(m.blocks, vote.block) {
                    None => Some(VoteError::UnknownBlock),
                    Some(ti) => {
                        if m.blocks[ti].slot != vote.slot {
                            Some(VoteError::SlotMismatch)
                        } else {
                            None
                        }
                    },
                }
            }
        },
    }
}

/// The chain view after appending `vote` to block `ti`'s tally, unless its
/// voter is already counted there (a repeat vote is a no-op).
pub open spec fn with_vote(blocks: Seq<BlockModel>, ti: int, vote: Vote) -> Seq<BlockModel>
    recommends
        0 <= ti < blocks.len(),
{
    if has_voter(blocks[ti].votes, vote.public_key) {
        blocks
    } else {
        blocks.update(ti, BlockModel { votes: blocks[ti].votes.push(vote), ..blocks[ti] })
    }
}

/// The maximal run of blocks ending at `i` whose members are all notarized
/// (except possibly block `i` itself), linked by parent ids, with strictly
/// increasing slots; oldest first. The walk stops at a missing or
/// non-notarized parent, or one whose slot is not strictly smaller.
pub open spec fn chain_run(blocks: Seq<BlockModel>, i: int) -> Seq<int>
    recommends
        0 <= i < blocks.len(),
    decreases blocks[i].slot,
{
    match blocks[i].parent {
        None => seq![i],
        Some(pid) => match block_index_of(blocks, pid) {
            None => seq![i],
            Some(j) => {
                if blocks[j].notarized && blocks[j].slot < blocks[i].slot {
                    chain_run(blocks, j).push(i)
                } else {
                    seq![i]
                }
            },
        },
    }
}

/// The chain view with every block of `run` marked finalized.
pub open spec fn finalize_run(blocks: Seq<BlockModel>, run: Seq<int>) -> Seq<BlockModel> {
    Seq::new(
        blocks.len(),
        |k: int|
            if run.contains(k) {
                BlockModel { finalized: true, ..blocks[k] }
            } else {
                blocks[k]
            },
    )
}

/// The chain view with the first `p` blocks of `run` marked finalized: the
/// intermediate states of one finalization sweep.
pub open spec fn finalize_prefix(blocks: Seq<BlockModel>, run: Seq<int>, p: int) -> Seq<
    BlockModel,
> {
    Seq::new(
        blocks.len(),
        |k: int|
            if run.take(p).contains(k) {
                BlockModel { finalized: true, ..blocks[k] }
            } else {
                blocks[k]
            },
    )
}

/// The ids of the blocks of `run` that were not finalized before, oldest
/// first: what one finalization event reports.
pub open spec fn newly_finalized(blocks: Seq<BlockModel>, run: Seq<int>) -> Seq<u64>
    decreases run.len(),
{
    if run.len() == 0 {
        Seq::empty()
    } else {
        (if 0 <= run[0] < blocks.len() && !blocks[run[0]].finalized {
            seq![blocks[run[0]].id]
        } else {
            Seq::empty()
        }) + newly_finalized(blocks, run.drop_first())
    }
}

/// Notarization and finalization after block `ti`'s tally changed: the block
/// becomes notarized the first time its weight reaches the quorum of its
/// slot's roster; when that happens and it closes a run of at least three
/// notarized blocks with strictly increasing slots, the whole run becomes
/// finalized. Returns the new chain view and the newly finalized ids,
/// oldest first.
pub open spec fn notarize_finalize(ps: Seq<Participant>, blocks: Seq<BlockModel>, ti: int) -> (
    Seq<BlockModel>,
    Seq<u64>,
)
    recommends
        0 <= ti < blocks.len(),
{
    let b = blocks[ti];
    if !b.notarized && b.votes.len() >= quorum(roster_size(ps, b.slot)) {
        let noted = blocks.update(ti, BlockModel { notarized: true, ..b });
        let run = chain_run(noted, ti);
        if run.len() >= 3 {
            (finalize_run(noted, run), newly_finalized(noted, run))
        } else {
            (noted, Seq::empty())
        }
    } else {
        (blocks, Seq::empty())
    }
}

/// The vote the local node casts: same block and slot as the vote that
/// triggered it, under the node's own identity and tokens.
pub open spec fn local_vote(m: ValidatorModel, vote: Vote) -> Vote {
    Vote {
        public_key: m.id,
        block: vote.block,
        slot: vote.slot,
        signature: m.signature,
        proof: m.proof,
    }
}

/// Whether the local node casts its own vote now: the target block is
/// notarized (in the view `blocks`, after tallying), and the local
/// participant is eligible at the vote's slot and has not voted at this or
/// a later slot yet.
pub open spec fn local_votes_now(
    m: ValidatorModel,
    blocks: Seq<BlockModel>,
    ti: int,
    vote: Vote,
) -> bool {
    blocks[ti].notarized && match participant_of(m.participants, m.id) {
        Some(p) => eligible(p, vote.slot) && (match p.voted {
            None => true,
            Some(s) => s < vote.slot,
        }),
        None => false,
    }
}

/// The roster with the last-voted slot of every participant keyed `key` set
/// to `slot`.
pub open spec fn mark_voted(ps: Seq<Participant>, key: u64, slot: u64) -> Seq<Participant> {
    Seq::new(
        ps.len(),
        |i: int|
            if ps[i].public_key == key {
                Participant { voted: Some(slot), ..ps[i] }
            } else {
                ps[i]
            },
    )
}

/// One full reception of a vote: either a rejection that leaves the state
/// unchanged, or the tally / notarization / finalization / own-vote stages
/// in that order. Returns the new state and the result: whether the local
/// node voted, and the newly finalized block ids, oldest first.
pub open spec fn step(m: ValidatorModel, vote: Vote) -> (
    ValidatorModel,
    Result<(bool, Seq<u64>), VoteError>,
) {
    match reject_reason(m, vote) {
        Some(e) => (m, Err(e)),
        None => {
            let ti = block_index_of(m.blocks, vote.block)->Some_0;
            let tallied = with_vote(m.blocks, ti, vote);
            let (flagged, newly) = notarize_finalize(m.participants, tallied, ti);
            if local_votes_now(m, flagged, ti, vote) {
                let blocks2 = with_vote(flagged, ti, local_vote(m, vote));
                let m2 = ValidatorModel {
                    participants: mark_voted(m.participants, m.id, vote.slot),
                    blocks: blocks2,
                    ..m
                };
                (m2, Ok((true, newly)))
            } else {
                (ValidatorModel { blocks: flagged, ..m }, Ok((false, newly)))
            }
        },
    }
}

// ---------------------------------------------------------------------------
// Well-formedness
// ---------------------------------------------------------------------------

/// A block's tally is deduplicated by voter, every vote in it names the
/// block and its slot, and a finalized block is notarized.
pub open spec fn block_wf(b: BlockModel) -> bool {
    &&& forall|i: int, j: int|
        0 <= i < j < b.votes.len() ==> b.votes[i].public_key != b.votes[j].public_key
    &&& forall|i: int| 0 <= i < b.votes.len() ==> (#[trigger] b.votes[i]).block == b.id
    &&& forall|i: int| 0 <= i < b.votes.len() ==> (#[trigger] b.votes[i]).slot == b.slot
    &&& b.finalized ==> b.notarized
}

/// Participant keys are unique, block ids are unique, and every block is
/// well-formed.
pub open spec fn model_wf(m: ValidatorModel) -> bool {
    &&& forall|i: int, j: int|
        0 <= i < j < m.participants.len() ==> m.participants[i].public_key
            != m.participants[j].public_key
    &&& forall|i: int, j: int| 0 <= i < j < m.blocks.len() ==> m.blocks[i].id != m.blocks[j].id
    &&& forall|b: int| 0 <= b < m.blocks.len() ==> block_wf(#[trigger] m.blocks[b])
}

/// Shape of a chain run: every index is in range, the target closes the run,
/// slots strictly increase along it, and every member but possibly the last
/// is notarized.
pub proof fn lemma_chain_run_props(blocks: Seq<BlockModel>, i: int)
    requires
        0 <= i < blocks.len(),
    ensures
        ({
            let r = chain_run(blocks, i);
            &&& r.len() >= 1
            &&& r[r.len() - 1] == i
            &&& forall|u: int| 0 <= u < r.len() ==> 0 <= #[trigger] r[u] < blocks.len()
            &&& forall|u: int, v: int|
                0 <= u < v < r.len() ==> blocks[r[u]].slot < blocks[r[v]].slot
            &&& forall|u: int| 0 <= u < r.len() - 1 ==> blocks[#[trigger] r[u]].notarized
        }),
    decreases blocks[i].slot,
{
    match blocks[i].parent {
        None => {},
        Some(pid) => {
            lemma_block_index_of_first(blocks, pid);
            match block_index_of(blocks, pid) {
                None => {},
                Some(j) => {
                    if blocks[j].notarized && blocks[j].slot < blocks[i].slot {
                        lemma_chain_run_props(blocks, j);
                        let rj = chain_run(blocks, j);
                        let r = chain_run(blocks, i);
                        assert(r == rj.push(i));
                        assert(forall|u: int| 0 <= u < rj.len() ==> r[u] == rj[u]);
                        assert(r[r.len() - 1] == i);
                    }
                },
            }
        },
    }
}

// ---------------------------------------------------------------------------
// The validator
// ---------------------------------------------------------------------------

/// The consensus state machine: the local node's identity and vote tokens,
/// the roster, and the chain view with its tallies.
pub struct Validator {
    /// The local node's public key.
    pub id: u64,
    /// The opaque signature token the local node puts on its own votes.
    pub signature: u64,
    /// The opaque eligibility token the local node puts on its own votes.
    pub proof: u64,
    /// The roster.
    pub participants: Vec<Participant>,
    /// The chain view.
    pub blocks: Vec<BlockRecord>,
}

impl Validator {
    /// The abstract state.
    pub open spec fn model(&self) -> ValidatorModel {
        ValidatorModel {
            id: self.id,
            signature: self.signature,
            proof: self.proof,
            participants: self.participants@,
            blocks: crate::serial::seq_deep_view(self.blocks@),
        }
    }

    /// The state invariant every operation preserves.
    pub open spec fn wf(&self) -> bool {
        model_wf(self.model())
    }

    /// A validator with an empty roster and an empty chain view.
    pub fn new(id: u64, signature: u64, proof: u64) -> (r: Self)
        ensures
            r.wf(),
            r.model() == (ValidatorModel {
                id,
                signature,
                proof,
                participants: Seq::empty(),
                blocks: Seq::empty(),
            }),
    {
        let r = Self { id, signature, proof, participants: Vec::new(), blocks: Vec::new() };
        proof {
            assert(r.model().blocks =~= Seq::<BlockModel>::empty());
            assert(r.model() == (ValidatorModel {
                id,
                signature,
                proof,
                participants: Seq::empty(),
                blocks: Seq::empty(),
            }));
        }
        r
    }

    /// Adds a participant to the roster unless its key is already present;
    /// returns whether it was added.
    pub fn add_participant(&mut self, p: Participant) -> (r: bool)
        requires
            old(self).wf(),
        ensures
            final(self).wf(),
            r == (participant_of(old(self).model().participants, p.public_key) is None),
            r ==> final(self).model() == (ValidatorModel {
                participants: old(self).model().participants.push(p),
                ..old(self).model()
            }),
            !r ==> *final(self) == *old(self),
    {
        match self.find_participant(p.public_key) {
            Some(_) => false,
            None => {
                proof {
                    lemma_participant_of_first(self.participants@, p.public_key);
                }
                self.participants.push(p);
                proof {
                    assert(self.model().blocks =~= old(self).model().blocks);
                    assert(self.model() == (ValidatorModel {
                        participants: old(self).model().participants.push(p),
                        ..old(self).model()
                    }));
                }
                true
            },
        }
    }

    /// Accepts a block into the chain view unless its id is already present;
    /// returns whether it was added. A fresh block has no votes and no flags.
    pub fn add_block(&mut self, id: u64, slot: u64, parent: Option<u64>) -> (r: bool)
        requires
            old(self).wf(),
        ensures
            final(self).wf(),
            r == (block_index_of(old(self).model().blocks, id) is None),
            r ==> final(self).model() == (ValidatorModel {
                blocks: old(self).model().blocks.push(
                    BlockModel {
                        id,
                        slot,
                        parent,
                        votes: Seq::empty(),
                        notarized: false,
                        finalized: false,
                    },
                ),
                ..old(self).model()
            }),
            !r ==> *final(self) == *old(self),
    {
        match self.find_block(id) {
            Some(_) => false,
            None => {
                proof {
                    lemma_block_index_of_first(self.model().blocks, id);
                }
                self.blocks.push(BlockRecord::new(id, slot, parent));
                proof {
                    assert(self.model().blocks =~= old(self).model().blocks.push(
                        BlockModel {
                            id,
                            slot,
                            parent,
                            votes: Seq::empty(),
                            notarized: false,
                            finalized: false,
                        },
                    ));
                    assert(self.model() == (ValidatorModel {
                        blocks: old(self).model().blocks.push(
                            BlockModel {
                                id,
                                slot,
                                parent,
                                votes: Seq::empty(),
                                notarized: false,
                                finalized: false,
                            },
                        ),
                        ..old(self).model()
                    }));
                }
                true
            },
        }
    }

    /// Finds the roster entry with the given key.
    fn find_participant(&self, key: u64) -> (r: Option<usize>)
        ensures
            match r {
                Some(i) => i < self.participants@.len() && self.participants@[i as int].public_key
                    == key && participant_of(self.participants@, key) == Some(
                    self.participants@[i as int],
                ),
                None => participant_of(self.participants@, key) is None,
            },
    {
        let mut i: usize = 0;
        while i < self.participants.len()
            invariant
                i <= self.participants@.len(),
                forall|j: int| 0 <= j < i ==> self.participants@[j].public_key != key,
            decreases self.participants@.len() - i,
        {
            if self.participants[i].public_key == key {
                proof {
                    let ps = self.participants@;
                    lemma_participant_of_first(ps, key);
                    lemma_participant_of_some(ps, key, i as int);
                    let p = participant_of(ps, key)->Some_0;
                    let i0 = choose|i0: int|
                        0 <= i0 < ps.len() && ps[i0] == p && ps[i0].public_key == key && (forall|
                            j: int,
                        | 0 <= j < i0 ==> ps[j].public_key != key);
                    assert(i0 == i as int);
                    assert(participant_of(ps, key) == Some(ps[i as int]));
                }
                return Some(i);
            }
            i = i + 1;
        }
        proof {
            let ps = self.participants@;
            lemma_participant_of_first(ps, key);
            if participant_of(ps, key) is Some {
                let p = participant_of(ps, key)->Some_0;
                let i0 = choose|i0: int|
                    0 <= i0 < ps.len() && ps[i0] == p && ps[i0].public_key == key && (forall|
                        j: int,
                    | 0 <= j < i0 ==> ps[j].public_key != key);
                assert(false);
            }
        }
        None
    }

    /// Finds the chain-view entry with the given block id.
    fn find_block(&self, id: u64) -> (r: Option<usize>)
        ensures
            match r {
                Some(i) => i < self.blocks@.len() && block_index_of(self.model().blocks, id)
                    == Some(i as int),
                None => block_index_of(self.model().blocks, id) is None,
            },
    {
        let ghost bm = self.model().blocks;
        let mut i: usize = 0;
        while i < self.blocks.len()
            invariant
                bm == self.model().blocks,
                bm.len() == self.blocks@.len(),
                i <= bm.len(),
                forall|j: int| 0 <= j < i ==> bm[j].id != id,
            decreases bm.len() - i,
        {
            if self.blocks[i].id == id {
                proof {
                    lemma_block_index_of_first(bm, id);
                    assert(bm[i as int].id == id);
                    match block_index_of(bm, id) {
                        Some(i0) => {
                            assert(i0 == i as int);
                        },
                        None => {
                            assert(false);
                        },
                    }
                }
                return Some(i);
            }
            i = i + 1;
        }
        proof {
            lemma_block_index_of_first(bm, id);
        }
        None
    }

    /// Whether block `b`'s tally already counts a vote by `key`.
    fn block_has_voter(&self, b: usize, key: u64) -> (r: bool)
        requires
            b < self.blocks@.len(),
        ensures
            r == has_voter(self.model().blocks[b as int].votes, key),
    {
        let ghost vm = self.model().blocks[b as int].votes;
        proof {
            assert(vm == self.blocks@[b as int].sm.votes@);
        }
        let votes = &self.blocks[b].sm.votes;
        let mut i: usize = 0;
        while i < votes.len()
            invariant
                b < self.blocks@.len(),
                vm == self.model().blocks[b as int].votes,
                vm == votes@,
                i <= vm.len(),
                forall|j: int| 0 <= j < i ==> vm[j].public_key != key,
            decreases vm.len() - i,
        {
            if votes[i].public_key == key {
                proof {
                    assert(vm[i as int].public_key == key);
                }
                return true;
            }
            i = i + 1;
        }
        false
    }

    /// Whether `vote`'s voter already voted for a different block at the
    /// same slot.
    fn equivocation_exists(&self, vote: &Vote) -> (r: bool)
        ensures
            r == equivocates(self.model().blocks, *vote),
    {
        let ghost bm = self.model().blocks;
        let mut b: usize = 0;
        while b < self.blocks.len()
            invariant
                bm == self.model().blocks,
                bm.len() == self.blocks@.len(),
                b <= bm.len(),
                forall|b2: int, i2: int|
                    0 <= b2 < b && 0 <= i2 < bm[b2].votes.len() ==> !(bm[b2].id != vote.block
                        && bm[b2].slot == vote.slot && bm[b2].votes[i2].public_key
                        == vote.public_key),
            decreases bm.len() - b,
        {
            if self.blocks[b].id != vote.block && self.blocks[b].slot == vote.slot {
                if self.block_has_voter(b, vote.public_key) {
                    proof {
                        let i2 = choose|i2: int|
                            0 <= i2 < bm[b as int].votes.len() && bm[b as int].votes[i2].public_key
                                == vote.public_key;
                        assert(equivocates(bm, *vote));
                    }
                    return true;
                }
            }
            b = b + 1;
        }
        false
    }

    /// The number of roster members eligible at `slot`.
    fn count_roster(&self, slot: u64) -> (r: usize)
        ensures
            r == roster_size(self.participants@, slot),
    {
        proof {
            assert(self.participants@.skip(0) =~= self.participants@);
        }
        let mut count: usize = 0;
        let mut i: usize = 0;
        while i < self.participants.len()
            invariant
                i <= self.participants@.len(),
                count <= i,
                count + roster_size(self.participants@.skip(i as int), slot) == roster_size(
                    self.participants@,
                    slot,
                ),
            decreases self.participants@.len() - i,
        {
            proof {
                assert(self.participants@.skip(i as int)[0] == self.participants@[i as int]);
                assert(self.participants@.skip(i as int).drop_first() =~= self.participants@.skip(
                    i as int + 1,
                ));
            }
            let p = self.participants[i];
            if p.quarantined.is_none() && p.joined <= slot {
                count = count + 1;
            }
            i = i + 1;
        }
        proof {
            assert(self.participants@.skip(self.participants@.len() as int) =~= Seq::<
                Participant,
            >::empty());
        }
        count
    }

    /// Walks the parent links from block `ti`, returning the indices of its
    /// chain run newest first (so the run, oldest first, is the reverse).
    fn collect_run(&self, ti: usize) -> (tmp: Vec<usize>)
        requires
            ti < self.blocks@.len(),
        ensures
            ({
                let sr = chain_run(self.model().blocks, ti as int);
                &&& tmp@.len() == sr.len()
                &&& forall|u: int|
                    0 <= u < sr.len() ==> #[trigger] sr[u] == tmp@[sr.len() - 1 - u] as int
            }),
    {
        let ghost bm = self.model().blocks;
        let mut tmp: Vec<usize> = Vec::new();
        tmp.push(ti);
        let mut cur = ti;
        let ghost mut done: Seq<int> = Seq::empty();
        loop
            invariant
                bm == self.model().blocks,
                bm.len() == self.blocks@.len(),
                cur < bm.len(),
                chain_run(bm, ti as int) == chain_run(bm, cur as int) + done,
                tmp@.len() == done.len() + 1,
                tmp@[tmp@.len() - 1] == cur,
                forall|t: int|
                    0 <= t < done.len() ==> #[trigger] done[t] == tmp@[tmp@.len() - 2 - t] as int,
            ensures
                chain_run(bm, ti as int) == seq![cur as int] + done,
                tmp@.len() == done.len() + 1,
                tmp@[tmp@.len() - 1] == cur,
                forall|t: int|
                    0 <= t < done.len() ==> #[trigger] done[t] == tmp@[tmp@.len() - 2 - t] as int,
            decreases self.blocks@[cur as int].slot,
        {
            let parent = self.blocks[cur].parent;
            match parent {
                None => {
                    break ;
                },
                Some(pid) => {
                    match self.find_block(pid) {
                        None => {
                            break ;
                        },
                        Some(j) => {
                            if self.blocks[j].sm.notarized && self.blocks[j].slot
                                < self.blocks[cur].slot {
                                proof {
                                    assert(chain_run(bm, cur as int) == chain_run(bm, j as int)
                                        + seq![cur as int]);
                                    assert(chain_run(bm, j as int) + (seq![cur as int] + done)
                                        =~= (chain_run(bm, j as int) + seq![cur as int]) + done);
                                }
                                let ghost old_tmp = tmp@;
                                tmp.push(j);
                                proof {
                                    done = seq![cur as int] + done;
                                }
                                cur = j;
                            } else {
                                break ;
                            }
                        },
                    }
                },
            }
        }
        proof {
            let sr = chain_run(bm, ti as int);
            assert(sr == seq![cur as int] + done);
            assert(sr.len() == tmp@.len());
            assert forall|u: int| 0 <= u < sr.len() implies #[trigger] sr[u] == tmp@[sr.len() - 1
                - u] as int by {
                if u == 0 {
                    assert(sr[0] == cur as int);
                } else {
                    assert(sr[u] == done[u - 1]);
                }
            }
        }
        tmp
    }

    /// Consumes one vote. An invalid vote is rejected with the reason and
    /// nothing changes. A valid vote is appended to its block's tally unless
    /// its voter is already counted; the block becomes notarized the first
    /// time its distinct-voter weight reaches the quorum of its slot's
    /// roster; a fresh notarization that closes a run of at least three
    /// notarized blocks with strictly increasing slots finalizes the whole
    /// run, and the newly finalized block ids are returned oldest first
    /// (`None` when nothing new was finalized). If the target block is
    /// notarized afterwards and the local node is eligible at the slot and
    /// has not voted at this or a later slot, the local node's own vote is
    /// tallied as well and `true` is returned. The whole transition equals
    /// the spec function [`step`].
    pub fn receive_vote(&mut self, vote: &Vote) -> (r: Result<(bool, Option<Vec<u64>>), VoteError>)
        requires
            old(self).wf(),
        ensures
            final(self).wf(),
            final(self).model() == step(old(self).model(), *vote).0,
            (match r {
                Ok((voted, fin)) => {
                    let res = step(old(self).model(), *vote).1;
                    &&& res is Ok
                    &&& res->Ok_0.0 == voted
                    &&& (match fin {
                        Some(v) => res->Ok_0.1 == v@ && v@.len() > 0,
                        None => res->Ok_0.1 == Seq::<u64>::empty(),
                    })
                },
                Err(e) => step(old(self).model(), *vote).1 == Err::<(bool, Seq<u64>), VoteError>(
                    e,
                ),
            }),
    {
        let ghost m0 = self.model();
        proof {
            lemma_step_wf(m0, *vote);
        }
        // Rejection checks, in the order of `reject_reason`.
        let pi = match self.find_participant(vote.public_key) {
            None => {
                return Err(VoteError::UnknownParticipant);
            },
            Some(i) => i,
        };
        let p = self.participants[pi];
        if p.quarantined.is_some() {
            return Err(VoteError::Quarantined);
        }
        if p.joined > vote.slot {
            return Err(VoteError::UnknownParticipant);
        }
        if self.equivocation_exists(vote) {
            return Err(VoteError::Equivocation);
        }
        let ti = match self.find_block(vote.block) {
            None => {
                return Err(VoteError::UnknownBlock);
            },
            Some(i) => i,
        };
        if self.blocks[ti].slot != vote.slot {
            proof {
                assert(m0.blocks[ti as int].slot == self.blocks@[ti as int].slot);
            }
            return Err(VoteError::SlotMismatch);
        }
        proof {
            assert(m0.blocks[ti as int].slot == vote.slot);
            assert(reject_reason(m0, *vote) is None);
        }
        // Tally the vote, deduplicated by voter.
        let ghost m1 = with_vote(m0.blocks, ti as int, *vote);
        if !self.block_has_voter(ti, vote.public_key) {
            let blk = &mut self.blocks[ti];
            blk.sm.votes.push(*vote);
        }
        proof {
            assert forall|k: int| 0 <= k < m1.len() implies self.model().blocks[k] == m1[k] by {}
            assert(self.model().blocks =~= m1);
            assert(self.participants@ == m0.participants);
        }
        // Notarization and finalization.
        let ghost stage2 = notarize_finalize(m0.participants, m1, ti as int);
        let mut newly_ids: Vec<u64> = Vec::new();
        let weight = self.blocks[ti].sm.votes.len();
        let rsize = self.count_roster(vote.slot);
        let quorum_reached = (weight as u128) >= (2 * (rsize as u128) + 2) / 3;
        proof {
            assert(weight == m1[ti as int].votes.len());
            assert(m1[ti as int].slot == vote.slot);
            assert(quorum_reached == (m1[ti as int].votes.len() >= quorum(
                roster_size(m0.participants, m1[ti as int].slot),
            )));
        }
        if !self.blocks[ti].sm.notarized && quorum_reached {
            {
                let blk = &mut self.blocks[ti];
                blk.sm.notarized = true;
            }
            let ghost noted = m1.update(
                ti as int,
                BlockModel { notarized: true, ..m1[ti as int] },
            );
            proof {
                assert forall|k: int| 0 <= k < noted.len() implies self.model().blocks[k]
                    == noted[k] by {}
                assert(self.model().blocks =~= noted);
                lemma_chain_run_props(noted, ti as int);
            }
            let run = self.collect_run(ti);
            let ghost sr = chain_run(noted, ti as int);
            if run.len() >= 3 {
                let mut k = run.len();
                proof {
                    assert(sr.skip(0) =~= sr);
                    assert(newly_ids@ + newly_finalized(noted, sr.skip(0)) =~= newly_finalized(
                        noted,
                        sr,
                    ));
                    assert(sr.take(0) =~= Seq::<int>::empty());
                    assert(self.model().blocks =~= finalize_prefix(noted, sr, 0));
                }
                while k > 0
                    invariant
                        k <= run@.len(),
                        run@.len() == sr.len(),
                        sr == chain_run(noted, ti as int),
                        noted.len() == self.blocks@.len(),
                        forall|u: int| 0 <= u < sr.len() ==> #[trigger] sr[u] == run@[sr.len() - 1
                            - u] as int,
                        forall|u: int| 0 <= u < sr.len() ==> 0 <= #[trigger] sr[u] < noted.len(),
                        forall|u: int, v: int|
                            0 <= u < v < sr.len() ==> noted[sr[u]].slot < noted[sr[v]].slot,
                        self.participants@ == m0.participants,
                        self.id == m0.id,
                        self.signature == m0.signature,
                        self.proof == m0.proof,
                        self.model().blocks == finalize_prefix(noted, sr, sr.len() - k),
                        newly_ids@ + newly_finalized(noted, sr.skip(sr.len() - k))
                            == newly_finalized(noted, sr),
                    decreases k,
                {
                    let ghost pp = sr.len() - k;
                    k = k - 1;
                    let idx = run[k];
                    proof {
                        assert(sr[pp] == run@[k as int] as int);
                        assert(0 <= sr[pp] < noted.len());
                        // the block at `idx` is untouched so far: run indices
                        // are distinct because their slots strictly increase
                        assert(forall|u: int|
                            0 <= u < pp ==> #[trigger] sr[u] != sr[pp]);
                        assert(!sr.take(pp).contains(idx as int));
                        assert(self.model().blocks[idx as int] == noted[idx as int]);
                        assert(sr.skip(pp)[0] == sr[pp]);
                        assert(sr.skip(pp).drop_first() =~= sr.skip(pp + 1));
                    }
                    let ghost ids_before = newly_ids@;
                    proof {
                        assert(self.model().blocks[idx as int].finalized == noted[
                            idx as int].finalized);
                        assert(self.model().blocks[idx as int].id == noted[idx as int].id);
                    }
                    if !self.blocks[idx].sm.finalized {
                        let id = self.blocks[idx].id;
                        newly_ids.push(id);
                    }
                    proof {
                        assert(newly_finalized(noted, sr.skip(pp)) == (if !noted[
                            sr[pp]].finalized {
                            seq![noted[sr[pp]].id]
                        } else {
                            Seq::<u64>::empty()
                        }) + newly_finalized(noted, sr.skip(pp + 1)));
                        assert(newly_ids@ + newly_finalized(noted, sr.skip(pp + 1)) =~= ids_before
                            + newly_finalized(noted, sr.skip(pp)));
                        assert(newly_ids@ + newly_finalized(noted, sr.skip(pp + 1))
                            == newly_finalized(noted, sr));
                    }
                    let ghost prev = self.model().blocks;
                    {
                        let blk = &mut self.blocks[idx];
                        blk.sm.finalized = true;
                    }
                    proof {
                        assert(prev == finalize_prefix(noted, sr, pp));
                        assert forall|t: int| 0 <= t < noted.len() implies self.model().blocks[t]
                            == (if t == idx as int {
                            BlockModel { finalized: true, ..prev[t] }
                        } else {
                            prev[t]
                        }) by {}
                        assert(sr.take(pp + 1) =~= sr.take(pp).push(sr[pp]));
                        assert forall|t: int| 0 <= t < noted.len() implies self.model().blocks[t]
                            == finalize_prefix(noted, sr, pp + 1)[t] by {
                            if t == idx as int {
                                assert(sr.take(pp + 1).contains(t)) by {
                                    assert(sr.take(pp + 1)[pp] == t);
                                }
                                assert(prev[t] == noted[t]);
                                assert(self.model().blocks[t] == BlockModel {
                                    finalized: true,
                                    ..noted[t]
                                });
                            } else {
                                assert(sr.take(pp + 1).contains(t) == sr.take(pp).contains(t))
                                    by {
                                    if sr.take(pp).contains(t) {
                                        let u = choose|u: int|
                                            0 <= u < pp && #[trigger] sr.take(pp)[u] == t;
                                        assert(sr.take(pp + 1)[u] == t);
                                    }
                                    if sr.take(pp + 1).contains(t) {
                                        let u = choose|u: int|
                                            0 <= u < pp + 1 && #[trigger] sr.take(pp + 1)[u] == t;
                                        if u < pp {
                                            assert(sr.take(pp)[u] == t);
                                        }
                                    }
                                }
                            }
                        }
                        assert(self.model().blocks =~= finalize_prefix(noted, sr, pp + 1));
                    }
                }
                proof {
                    assert(sr.take(sr.len() as int) =~= sr);
                    assert forall|t: int| 0 <= t < noted.len() implies finalize_prefix(
                        noted,
                        sr,
                        sr.len() as int,
                    )[t] == finalize_run(noted, sr)[t] by {}
                    assert(finalize_prefix(noted, sr, sr.len() as int) =~= finalize_run(
                        noted,
                        sr,
                    ));
                    assert(sr.skip(sr.len() as int) =~= Seq::<int>::empty());
                    assert(newly_ids@ + Seq::<u64>::empty() =~= newly_ids@);
                    assert(self.model().blocks == stage2.0);
                    assert(newly_ids@ == stage2.1);
                }
            } else {
                proof {
                    assert(self.model().blocks == stage2.0);
                    assert(newly_ids@ =~= stage2.1);
                }
            }
        } else {
            proof {
                assert(self.model().blocks == stage2.0);
                assert(newly_ids@ =~= stage2.1);
            }
        }
        let ghost flagged = stage2.0;
        // The local node's own vote.
        let mut voted = false;
        proof {
            assert(self.blocks@[ti as int].sm.notarized == flagged[ti as int].notarized);
        }
        if self.blocks[ti].sm.notarized {
            match self.find_participant(self.id) {
                Some(li) => {
                    let lp = self.participants[li];
                    let unvoted = match lp.voted {
                        None => true,
                        Some(s) => s < vote.slot,
                    };
                    if lp.quarantined.is_none() && lp.joined <= vote.slot && unvoted {
                        proof {
                            assert(local_votes_now(m0, flagged, ti as int, *vote));
                        }
                        let lv = Vote {
                            public_key: self.id,
                            block: vote.block,
                            slot: vote.slot,
                            signature: self.signature,
                            proof: self.proof,
                        };
                        let ghost blocks2 = with_vote(flagged, ti as int, local_vote(m0, *vote));
                        if !self.block_has_voter(ti, self.id) {
                            let blk = &mut self.blocks[ti];
                            blk.sm.votes.push(lv);
                        }
                        proof {
                            assert(lv == local_vote(m0, *vote));
                            assert forall|t: int| 0 <= t < blocks2.len() implies
                                self.model().blocks[t] == blocks2[t] by {}
                            assert(self.model().blocks =~= blocks2);
                        }
                        {
                            let pp = &mut self.participants[li];
                            pp.voted = Some(vote.slot);
                        }
                        proof {
                            assert forall|t: int| 0 <= t < m0.participants.len() implies
                                self.participants@[t] == mark_voted(
                                m0.participants,
                                m0.id,
                                vote.slot,
                            )[t] by {
                                if t != li as int {
                                    assert(m0.participants[t].public_key != m0.id);
                                }
                            }
                            assert(self.participants@ =~= mark_voted(
                                m0.participants,
                                m0.id,
                                vote.slot,
                            ));
                        }
                        voted = true;
                    } else {
                        proof {
                            assert(!local_votes_now(m0, flagged, ti as int, *vote));
                        }
                    }
                },
                None => {
                    proof {
                        assert(!local_votes_now(m0, flagged, ti as int, *vote));
                    }
                },
            }
        } else {
            proof {
                assert(!local_votes_now(m0, flagged, ti as int, *vote));
            }
        }
        proof {
            assert(self.model() == step(m0, *vote).0);
        }
        if newly_ids.len() > 0 {
            Ok((voted, Some(newly_ids)))
        } else {
            proof {
                assert(newly_ids@ =~= Seq::<u64>::empty());
            }
            Ok((voted, None))
        }
    }
}

/// A step from a well-formed state is well-formed: tallies stay deduplicated
/// and consistent with their block, and finalized blocks stay notarized.
pub proof fn lemma_step_wf(m: ValidatorModel, vote: Vote)
    requires
        model_wf(m),
    ensures
        model_wf(step(m, vote).0),
{
    if reject_reason(m, vote) is Some {
    } else {
        lemma_block_index_of_first(m.blocks, vote.block);
        let ti = block_index_of(m.blocks, vote.block)->Some_0;
        assert(m.blocks[ti].id == vote.block);
        assert(m.blocks[ti].slot == vote.slot);
        let m1 = with_vote(m.blocks, ti, vote);
        lemma_with_vote_wf(m.blocks, ti, vote);
        assert(forall|i: int, j: int| 0 <= i < j < m1.len() ==> m1[i].id != m1[j].id);
        let (flagged, _newly) = notarize_finalize(m.participants, m1, ti);
        lemma_notarize_finalize_wf(m.participants, m1, ti);
        if local_votes_now(m, flagged, ti, vote) {
            let lv = local_vote(m, vote);
            assert(flagged[ti].id == vote.block && flagged[ti].slot == vote.slot);
            lemma_with_vote_wf(flagged, ti, lv);
            let ps2 = mark_voted(m.participants, m.id, vote.slot);
            assert(forall|i: int|
                0 <= i < ps2.len() ==> #[trigger] ps2[i].public_key
                    == m.participants[i].public_key);
        }
    }
}

/// Tallying one vote whose block and slot match its target block keeps every
/// block well-formed.
pub proof fn lemma_with_vote_wf(blocks: Seq<BlockModel>, ti: int, vote: Vote)
    requires
        0 <= ti < blocks.len(),
        forall|b: int| 0 <= b < blocks.len() ==> block_wf(#[trigger] blocks[b]),
        blocks[ti].id == vote.block,
        blocks[ti].slot == vote.slot,
    ensures
        ({
            let m1 = with_vote(blocks, ti, vote);
            &&& m1.len() == blocks.len()
            &&& forall|b: int| 0 <= b < m1.len() ==> block_wf(#[trigger] m1[b])
            &&& forall|b: int|
                0 <= b < m1.len() ==> #[trigger] m1[b].id == blocks[b].id && m1[b].slot
                    == blocks[b].slot && m1[b].notarized == blocks[b].notarized && m1[b].finalized
                    == blocks[b].finalized && m1[b].parent == blocks[b].parent
        }),
{
    let m1 = with_vote(blocks, ti, vote);
    if !has_voter(blocks[ti].votes, vote.public_key) {
        let ov = blocks[ti].votes;
        let nv = m1[ti].votes;
        assert(nv == ov.push(vote));
        assert forall|b: int| 0 <= b < m1.len() implies block_wf(#[trigger] m1[b]) by {
            assert(block_wf(blocks[b]));
            if b == ti {
                assert forall|i: int|
                    0 <= i < nv.len() implies (#[trigger] nv[i]).block == m1[b].id && nv[i].slot
                    == m1[b].slot by {
                    if i < ov.len() {
                        assert(nv[i] == ov[i]);
                        assert(ov[i].block == blocks[ti].id && ov[i].slot == blocks[ti].slot);
                    } else {
                        assert(nv[i] == vote);
                    }
                }
                assert forall|i: int, j: int|
                    0 <= i < j < nv.len() implies nv[i].public_key != nv[j].public_key by {
                    if j == nv.len() - 1 {
                        assert(nv[i] == ov[i]);
                        assert(nv[j] == vote);
                        if ov[i].public_key == vote.public_key {
                            assert(has_voter(ov, vote.public_key));
                        }
                    } else {
                        assert(nv[i] == ov[i] && nv[j] == ov[j]);
                    }
                }
            }
        }
    }
}

/// Notarization and finalization preserve well-formedness of every block:
/// they flip flags only, and every block they finalize is notarized.
pub proof fn lemma_notarize_finalize_wf(ps: Seq<Participant>, blocks: Seq<BlockModel>, ti: int)
    requires
        0 <= ti < blocks.len(),
        forall|b: int| 0 <= b < blocks.len() ==> block_wf(#[trigger] blocks[b]),
        forall|i: int, j: int| 0 <= i < j < blocks.len() ==> blocks[i].id != blocks[j].id,
    ensures
        ({
            let (flagged, _newly) = notarize_finalize(ps, blocks, ti);
            &&& flagged.len() == blocks.len()
            &&& forall|b: int| 0 <= b < flagged.len() ==> block_wf(#[trigger] flagged[b])
            &&& forall|i: int, j: int| 0 <= i < j < flagged.len() ==> flagged[i].id != flagged[j].id
            &&& forall|b: int|
                0 <= b < flagged.len() ==> #[trigger] flagged[b].id == blocks[b].id
                    && flagged[b].slot == blocks[b].slot && flagged[b].votes == blocks[b].votes
                    && flagged[b].parent == blocks[b].parent
        }),
{
    let b0 = blocks[ti];
    if !b0.notarized && b0.votes.len() >= quorum(roster_size(ps, b0.slot)) {
        let noted = blocks.update(ti, BlockModel { notarized: true, ..b0 });
        assert(forall|b: int|
            0 <= b < noted.len() ==> #[trigger] noted[b].id == blocks[b].id && noted[b].slot
                == blocks[b].slot && noted[b].votes == blocks[b].votes && noted[b].parent
                == blocks[b].parent);
        assert forall|b: int| 0 <= b < noted.len() implies block_wf(#[trigger] noted[b]) by {
            assert(block_wf(blocks[b]));
        }
        let run = chain_run(noted, ti);
        if run.len() >= 3 {
            lemma_chain_run_props(noted, ti);
            let fin = finalize_run(noted, run);
            assert forall|b: int| 0 <= b < fin.len() implies block_wf(#[trigger] fin[b]) by {
                assert(block_wf(noted[b]));
                if run.contains(b) {
                    // every member of the run is notarized: the closing block
                    // was just notarized and the rest were notarized already
                    let u = choose|u: int| 0 <= u < run.len() && run[u] == b;
                    if u < run.len() - 1 {
                        assert(noted[b].notarized);
                    } else {
                        assert(run[run.len() - 1] == ti);
                    }
                }
            }
        }
    }
}

} // verus!
