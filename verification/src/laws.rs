//! The protocol laws, proved of the validator's transition function
//! [`step`]: monotonicity of the finality flags, rejection of equivocating
//! votes, the exact quorum boundary, the finalization chain rule, absence of
//! double counting, and independence of the tally from vote arrival order.

use vstd::prelude::*;

use crate::consensus::{Participant, Vote};
use crate::validator::{
    block_index_of, block_wf, chain_run, eligible, equivocates, finalize_run, has_voter,
    lemma_block_index_of_first, lemma_participant_of_first, lemma_chain_run_props, lemma_step_wf, local_vote, local_votes_now,
    mark_voted, model_wf, newly_finalized, notarize_finalize, participant_of, quorum,
    reject_reason, roster_size, step, with_vote, BlockModel, ValidatorModel, VoteError,
};

verus! {

// ---------------------------------------------------------------------------
// Small facts used throughout
// ---------------------------------------------------------------------------

/// In a well-formed chain view, looking up a block's own id finds the block.
pub proof fn lemma_block_index_of_self(blocks: Seq<BlockModel>, ti: int)
    requires
        0 <= ti < blocks.len(),
        forall|i: int, j: int| 0 <= i < j < blocks.len() ==> blocks[i].id != blocks[j].id,
    ensures
        block_index_of(blocks, blocks[ti].id) == Some(ti),
{
    lemma_block_index_of_first(blocks, blocks[ti].id);
    match block_index_of(blocks, blocks[ti].id) {
        Some(i0) => {
            if i0 != ti {
                assert(blocks[i0].id == blocks[ti].id);
            }
        },
        None => {
            assert(blocks[ti].id == blocks[ti].id);
        },
    }
}

// ---------------------------------------------------------------------------
// Monotonicity: flags never flip back, tallies only grow
// ---------------------------------------------------------------------------

/// One step never clears a notarization or finalization flag, and never
/// removes a vote from a tally.
pub proof fn lemma_monotonicity(m: ValidatorModel, vote: Vote)
    requires
        model_wf(m),
    ensures
        ({
            let m2 = step(m, vote).0;
            &&& m2.blocks.len() == m.blocks.len()
            &&& forall|b: int|
                0 <= b < m.blocks.len() ==> ((m.blocks[b].notarized
                    ==> #[trigger] m2.blocks[b].notarized) && (m.blocks[b].finalized
                    ==> m2.blocks[b].finalized) && m.blocks[b].votes.is_prefix_of(
                    m2.blocks[b].votes,
                ))
        }),
{
    broadcast use vstd::seq_lib::group_seq_properties;

    if reject_reason(m, vote) is Some {
        assert forall|b: int| 0 <= b < m.blocks.len() implies m.blocks[b].votes.is_prefix_of(
            #[trigger] step(m, vote).0.blocks[b].votes,
        ) by {
            assert(m.blocks[b].votes.is_prefix_of(m.blocks[b].votes));
        }
    } else {
        let ti = block_index_of(m.blocks, vote.block)->Some_0;
        lemma_block_index_of_first(m.blocks, vote.block);
        let tallied = with_vote(m.blocks, ti, vote);
        assert forall|b: int| 0 <= b < m.blocks.len() implies m.blocks[b].notarized
            == #[trigger] tallied[b].notarized && m.blocks[b].finalized == tallied[b].finalized
            && m.blocks[b].votes.is_prefix_of(tallied[b].votes) by {
            if b == ti && !has_voter(m.blocks[ti].votes, vote.public_key) {
                assert(tallied[b].votes == m.blocks[b].votes.push(vote));
                assert(m.blocks[b].votes.is_prefix_of(m.blocks[b].votes.push(vote))) by {
                    assert(m.blocks[b].votes.push(vote).take(m.blocks[b].votes.len() as int) =~= m
                        .blocks[b].votes);
                }
            } else {
                assert(m.blocks[b].votes.is_prefix_of(m.blocks[b].votes));
            }
        }
        let (flagged, _newly) = notarize_finalize(m.participants, tallied, ti);
        assert forall|b: int| 0 <= b < m.blocks.len() implies (tallied[b].notarized
            ==> #[trigger] flagged[b].notarized) && (tallied[b].finalized
            ==> flagged[b].finalized) && flagged[b].votes == tallied[b].votes by {}
        let m2 = step(m, vote).0;
        if local_votes_now(m, flagged, ti, vote) {
            let lv = local_vote(m, vote);
            let blocks2 = with_vote(flagged, ti, lv);
            assert forall|b: int| 0 <= b < m.blocks.len() implies (flagged[b].notarized
                ==> #[trigger] blocks2[b].notarized) && (flagged[b].finalized
                ==> blocks2[b].finalized) && flagged[b].votes.is_prefix_of(
                blocks2[b].votes,
            ) by {
                if b == ti && !has_voter(flagged[ti].votes, lv.public_key) {
                    assert(blocks2[b].votes == flagged[b].votes.push(lv));
                    assert(flagged[b].votes.is_prefix_of(flagged[b].votes.push(lv))) by {
                        assert(flagged[b].votes.push(lv).take(flagged[b].votes.len() as int)
                            =~= flagged[b].votes);
                    }
                } else {
                    assert(flagged[b].votes.is_prefix_of(flagged[b].votes));
                }
            }
        }
        assert forall|b: int| 0 <= b < m.blocks.len() implies ((m.blocks[b].notarized
            ==> #[trigger] m2.blocks[b].notarized) && (m.blocks[b].finalized
            ==> m2.blocks[b].finalized) && m.blocks[b].votes.is_prefix_of(m2.blocks[b].votes)) by {
            assert(m.blocks[b].votes.is_prefix_of(tallied[b].votes));
            assert(tallied[b].votes.is_prefix_of(m2.blocks[b].votes) ==> m.blocks[
                b].votes.is_prefix_of(m2.blocks[b].votes)) by {
                if tallied[b].votes.is_prefix_of(m2.blocks[b].votes) {
                    assert(m2.blocks[b].votes.take(tallied[b].votes.len() as int).take(m.blocks[
                        b].votes.len() as int) =~= m2.blocks[b].votes.take(m.blocks[
                        b].votes.len() as int));
                }
            }
        }
    }
}

// ---------------------------------------------------------------------------
// Equivocation rejection
// ---------------------------------------------------------------------------

/// After a vote is accepted, a second vote by the same voter for a different
/// block at the same slot is rejected as equivocation: the state does not
/// change, and the first vote stays counted.
pub proof fn lemma_equivocation_rejected(m: ValidatorModel, v1: Vote, v2: Vote)
    requires
        model_wf(m),
        step(m, v1).1 is Ok,
        v2.public_key == v1.public_key,
        v2.slot == v1.slot,
        v2.block != v1.block,
    ensures
        ({
            let m1 = step(m, v1).0;
            &&& step(m1, v2).1 == Err::<(bool, Seq<u64>), VoteError>(VoteError::Equivocation)
            &&& step(m1, v2).0 == m1
            &&& has_voter(
                m1.blocks[block_index_of(m.blocks, v1.block)->Some_0].votes,
                v1.public_key,
            )
        }),
{
    let m1 = step(m, v1).0;
    let ti = block_index_of(m.blocks, v1.block)->Some_0;
    lemma_block_index_of_first(m.blocks, v1.block);
    let tallied = with_vote(m.blocks, ti, v1);
    // the voter is counted on the target after the tally, and stays counted
    assert(has_voter(tallied[ti].votes, v1.public_key)) by {
        if !has_voter(m.blocks[ti].votes, v1.public_key) {
            let nv = m.blocks[ti].votes.push(v1);
            assert(nv[nv.len() - 1].public_key == v1.public_key);
        }
    }
    let (flagged, _n) = notarize_finalize(m.participants, tallied, ti);
    assert(flagged[ti].votes == tallied[ti].votes);
    assert(has_voter(m1.blocks[ti].votes, v1.public_key)) by {
        if local_votes_now(m, flagged, ti, v1) {
            let lv = local_vote(m, v1);
            if !has_voter(flagged[ti].votes, lv.public_key) {
                let i = choose|i: int|
                    0 <= i < flagged[ti].votes.len() && flagged[ti].votes[i].public_key
                        == v1.public_key;
                assert(m1.blocks[ti].votes[i].public_key == v1.public_key);
            }
        }
    }
    // the second vote hits the equivocation check
    assert(m1.blocks[ti].id == v1.block);
    assert(m1.blocks[ti].slot == v1.slot) by {
        assert(m.blocks[ti].slot == v1.slot);
    }
    assert(equivocates(m1.blocks, v2)) by {
        let i = choose|i: int|
            0 <= i < m1.blocks[ti].votes.len() && m1.blocks[ti].votes[i].public_key
                == v1.public_key;
        assert(0 <= ti < m1.blocks.len() && 0 <= i < m1.blocks[ti].votes.len() && m1.blocks[ti].id
            != v2.block && m1.blocks[ti].slot == v2.slot && m1.blocks[ti].votes[i].public_key
            == v2.public_key);
    }
    // the participant checks still pass, so the reason is the equivocation
    let p1 = participant_of(m.participants, v1.public_key)->Some_0;
    assert(p1.quarantined is None && p1.joined <= v1.slot);
    if local_votes_now(m, flagged, ti, v1) {
        lemma_participant_of_same_keys(
            m.participants,
            mark_voted(m.participants, m.id, v1.slot),
            v2.public_key,
        );
    }
    assert(reject_reason(m1, v2) == Some(VoteError::Equivocation));
}

/// Two rosters whose entries agree on key, joining slot and quarantine agree
/// on lookups (up to those fields) and on roster sizes.
pub proof fn lemma_participant_of_same_keys(ps1: Seq<Participant>, ps2: Seq<Participant>, key: u64)
    requires
        ps1.len() == ps2.len(),
        forall|i: int|
            0 <= i < ps1.len() ==> (#[trigger] ps2[i]).public_key == ps1[i].public_key
                && ps2[i].joined == ps1[i].joined && ps2[i].quarantined == ps1[i].quarantined,
    ensures
        participant_of(ps1, key) is Some <==> participant_of(ps2, key) is Some,
        participant_of(ps1, key) is Some ==> {
            let p1 = participant_of(ps1, key)->Some_0;
            let p2 = participant_of(ps2, key)->Some_0;
            p1.public_key == p2.public_key && p1.joined == p2.joined && p1.quarantined
                == p2.quarantined
        },
    decreases ps1.len(),
{
    if ps1.len() > 0 {
        if ps1[0].public_key != key {
            assert forall|i: int| 0 <= i < ps1.drop_first().len() implies (#[trigger] ps2
                .drop_first()[i]).public_key == ps1.drop_first()[i].public_key && ps2.drop_first()[
                i].joined == ps1.drop_first()[i].joined && ps2.drop_first()[i].quarantined == ps1
                .drop_first()[i].quarantined by {
                assert(ps1.drop_first()[i] == ps1[i + 1]);
                assert(ps2.drop_first()[i] == ps2[i + 1]);
            }
            lemma_participant_of_same_keys(ps1.drop_first(), ps2.drop_first(), key);
        }
    }
}

/// Rosters that agree on joining slots and quarantine flags have the same
/// size at every slot.
pub proof fn lemma_roster_size_same(ps1: Seq<Participant>, ps2: Seq<Participant>, slot: u64)
    requires
        ps1.len() == ps2.len(),
        forall|i: int|
            0 <= i < ps1.len() ==> (#[trigger] ps2[i]).joined == ps1[i].joined
                && ps2[i].quarantined == ps1[i].quarantined,
    ensures
        roster_size(ps1, slot) == roster_size(ps2, slot),
    decreases ps1.len(),
{
    if ps1.len() > 0 {
        assert forall|i: int| 0 <= i < ps1.drop_first().len() implies (#[trigger] ps2.drop_first()[
            i]).joined == ps1.drop_first()[i].joined && ps2.drop_first()[i].quarantined == ps1
            .drop_first()[i].quarantined by {
            assert(ps1.drop_first()[i] == ps1[i + 1]);
            assert(ps2.drop_first()[i] == ps2[i + 1]);
        }
        lemma_roster_size_same(ps1.drop_first(), ps2.drop_first(), slot);
    }
}

// ---------------------------------------------------------------------------
// Quorum boundary
// ---------------------------------------------------------------------------

/// `quorum(r)` is exactly the two-thirds ceiling: the least weight `q` with
/// `3 * q >= 2 * r`.
pub proof fn lemma_quorum_is_two_thirds_ceiling(r: nat)
    ensures
        3 * quorum(r) >= 2 * r,
        quorum(r) > 0 ==> 3 * (quorum(r) - 1) < 2 * r,
{
    vstd::arithmetic::div_mod::lemma_fundamental_div_mod(2 * r as int + 2, 3);
}

/// An accepted vote notarizes its block exactly when the tally weight, after
/// the vote is counted, first reaches the quorum of the block's slot roster.
pub proof fn lemma_quorum_boundary(m: ValidatorModel, vote: Vote)
    requires
        model_wf(m),
        reject_reason(m, vote) is None,
    ensures
        ({
            let ti = block_index_of(m.blocks, vote.block)->Some_0;
            let m2 = step(m, vote).0;
            m2.blocks[ti].notarized == (m.blocks[ti].notarized || with_vote(
                m.blocks,
                ti,
                vote,
            )[ti].votes.len() >= quorum(roster_size(m.participants, vote.slot)))
        }),
{
    let ti = block_index_of(m.blocks, vote.block)->Some_0;
    lemma_block_index_of_first(m.blocks, vote.block);
    let tallied = with_vote(m.blocks, ti, vote);
    assert(tallied[ti].slot == vote.slot);
    assert(tallied[ti].notarized == m.blocks[ti].notarized);
    let (flagged, _n) = notarize_finalize(m.participants, tallied, ti);
    assert(flagged[ti].notarized == (m.blocks[ti].notarized || tallied[ti].votes.len() >= quorum(
        roster_size(m.participants, vote.slot),
    )));
    let m2 = step(m, vote).0;
    assert(m2.blocks[ti].notarized == flagged[ti].notarized);
}

// ---------------------------------------------------------------------------
// Finalization chain rule
// ---------------------------------------------------------------------------

/// Ids reported by a finalization event belong to blocks of the run that
/// were not finalized before.
pub proof fn lemma_newly_finalized_members(blocks: Seq<BlockModel>, run: Seq<int>, id: u64)
    requires
        newly_finalized(blocks, run).contains(id),
    ensures
        exists|u: int|
            0 <= u < run.len() && 0 <= #[trigger] run[u] < blocks.len() && blocks[run[u]].id == id
                && !blocks[run[u]].finalized,
    decreases run.len(),
{
    let head: Seq<u64> = if 0 <= run[0] < blocks.len() && !blocks[run[0]].finalized {
        seq![blocks[run[0]].id]
    } else {
        Seq::empty()
    };
    if head.contains(id) {
        assert(0 <= run[0] < blocks.len() && blocks[run[0]].id == id && !blocks[run[0]].finalized);
    } else {
        assert(newly_finalized(blocks, run.drop_first()).contains(id)) by {
            let k = choose|k: int|
                0 <= k < newly_finalized(blocks, run).len() && newly_finalized(blocks, run)[k]
                    == id;
            assert(newly_finalized(blocks, run)[k] == (head + newly_finalized(
                blocks,
                run.drop_first(),
            ))[k]);
        }
        lemma_newly_finalized_members(blocks, run.drop_first(), id);
        let u = choose|u: int|
            0 <= u < run.drop_first().len() && 0 <= #[trigger] run.drop_first()[u] < blocks.len()
                && blocks[run.drop_first()[u]].id == id && !blocks[run.drop_first()[u]].finalized;
        assert(run[u + 1] == run.drop_first()[u]);
    }
}

/// A block that is already finalized is never reported again by a later
/// call: monotone, no re-announcement.
pub proof fn lemma_finalized_never_rereturned(m: ValidatorModel, vote: Vote, b: int)
    requires
        model_wf(m),
        0 <= b < m.blocks.len(),
        m.blocks[b].finalized,
        step(m, vote).1 is Ok,
    ensures
        !step(m, vote).1->Ok_0.1.contains(m.blocks[b].id),
{
    let res = step(m, vote).1;
    if reject_reason(m, vote) is None {
        let ti = block_index_of(m.blocks, vote.block)->Some_0;
        lemma_block_index_of_first(m.blocks, vote.block);
        let tallied = with_vote(m.blocks, ti, vote);
        let b0 = tallied[ti];
        if !b0.notarized && b0.votes.len() >= quorum(roster_size(m.participants, b0.slot)) {
            let noted = tallied.update(ti, BlockModel { notarized: true, ..b0 });
            let run = chain_run(noted, ti);
            if run.len() >= 3 {
                assert(res->Ok_0.1 == newly_finalized(noted, run));
                if newly_finalized(noted, run).contains(m.blocks[b].id) {
                    lemma_newly_finalized_members(noted, run, m.blocks[b].id);
                    let u = choose|u: int|
                        0 <= u < run.len() && 0 <= #[trigger] run[u] < noted.len() && noted[run[
                            u]].id == m.blocks[b].id && !noted[run[u]].finalized;
                    let k = run[u];
                    assert(noted[k].id == m.blocks[k].id);
                    assert(k == b);
                    assert(noted[b].finalized == m.blocks[b].finalized);
                }
            } else {
                assert(res->Ok_0.1 =~= Seq::<u64>::empty());
            }
        } else {
            assert(res->Ok_0.1 =~= Seq::<u64>::empty());
        }
    }
}

/// The finalization chain rule: when the vote that notarizes a block closes
/// a three-block run (grandparent and parent notarized, slots strictly
/// increasing, the grandparent opening the run), the call reports exactly
/// those three blocks, oldest first, and all three are finalized afterwards.
pub proof fn lemma_finalization_chain(
    m: ValidatorModel,
    vote: Vote,
    i1: int,
    i2: int,
    i3: int,
)
    requires
        model_wf(m),
        reject_reason(m, vote) is None,
        block_index_of(m.blocks, vote.block) == Some(i3),
        0 <= i1 < m.blocks.len(),
        0 <= i2 < m.blocks.len(),
        i1 != i3,
        i2 != i3,
        m.blocks[i3].parent == Some(m.blocks[i2].id),
        m.blocks[i2].parent == Some(m.blocks[i1].id),
        m.blocks[i1].slot < m.blocks[i2].slot,
        m.blocks[i2].slot < m.blocks[i3].slot,
        m.blocks[i1].notarized,
        m.blocks[i2].notarized,
        !m.blocks[i3].notarized,
        !m.blocks[i1].finalized,
        !m.blocks[i2].finalized,
        // the grandparent opens the run: no notarized parent below it
        (match m.blocks[i1].parent {
            None => true,
            Some(pid) => match block_index_of(m.blocks, pid) {
                None => true,
                Some(j) => !m.blocks[j].notarized || m.blocks[j].slot >= m.blocks[i1].slot || j
                    == i3,
            },
        }),
        // this vote brings the tally to the quorum
        with_vote(m.blocks, i3, vote)[i3].votes.len() >= quorum(
            roster_size(m.participants, vote.slot),
        ),
    ensures
        step(m, vote).1 is Ok,
        step(m, vote).1->Ok_0.1 == seq![
            m.blocks[i1].id,
            m.blocks[i2].id,
            m.blocks[i3].id,
        ],
        step(m, vote).0.blocks[i1].finalized,
        step(m, vote).0.blocks[i2].finalized,
        step(m, vote).0.blocks[i3].finalized,
{
    let ti = i3;
    lemma_block_index_of_first(m.blocks, vote.block);
    let tallied = with_vote(m.blocks, ti, vote);
    assert(tallied[ti].slot == vote.slot && !tallied[ti].notarized);
    let b0 = tallied[ti];
    let noted = tallied.update(ti, BlockModel { notarized: true, ..b0 });
    // the run from i3 is exactly [i1, i2, i3]
    assert(noted.len() == m.blocks.len());
    assert(forall|b: int|
        0 <= b < noted.len() ==> (#[trigger] noted[b]).id == m.blocks[b].id && noted[b].slot
            == m.blocks[b].slot && noted[b].parent == m.blocks[b].parent && noted[b].finalized
            == m.blocks[b].finalized);
    assert(forall|b: int|
        0 <= b < noted.len() && b != ti ==> (#[trigger] noted[b]).notarized
            == m.blocks[b].notarized);
    lemma_block_index_same_ids(m.blocks, noted, m.blocks[i2].id);
    lemma_block_index_same_ids(m.blocks, noted, m.blocks[i1].id);
    lemma_block_index_of_self(m.blocks, i2);
    lemma_block_index_of_self(m.blocks, i1);
    assert(block_index_of(noted, m.blocks[i2].id) == Some(i2));
    assert(block_index_of(noted, m.blocks[i1].id) == Some(i1));
    assert(!m.blocks[i3].finalized) by {
        assert(block_wf(m.blocks[i3]));
    }
    let run1 = chain_run(noted, i1);
    assert(run1 == seq![i1]) by {
        match m.blocks[i1].parent {
            None => {},
            Some(pid) => {
                lemma_block_index_same_ids(m.blocks, noted, pid);
                lemma_block_index_of_first(m.blocks, pid);
                match block_index_of(m.blocks, pid) {
                    None => {},
                    Some(j) => {
                        assert(0 <= j < m.blocks.len() && m.blocks[j].id == pid);
                        if j == i3 {
                            assert(noted[j].slot == m.blocks[i3].slot);
                            assert(noted[j].slot >= noted[i1].slot);
                        } else {
                            assert(noted[j].notarized == m.blocks[j].notarized);
                            assert(!noted[j].notarized || noted[j].slot >= noted[i1].slot);
                        }
                    },
                }
            },
        }
    }
    let run2 = chain_run(noted, i2);
    assert(run2 == run1.push(i2));
    let run = chain_run(noted, i3);
    assert(run == run2.push(i3));
    assert(run =~= seq![i1, i2, i3]) by {
        assert(run1.push(i2).push(i3).len() == 3);
    }
    assert(run.len() >= 3);
    // the reported ids are exactly the three, oldest first
    let newly = newly_finalized(noted, run);
    assert(newly == seq![noted[i1].id] + (seq![noted[i2].id] + (seq![noted[i3].id]
        + Seq::<u64>::empty()))) by {
        assert(run[0] == i1 && !noted[i1].finalized);
        let r2 = run.drop_first();
        assert(r2 =~= seq![i2, i3]);
        assert(r2[0] == i2 && !noted[i2].finalized);
        let r3 = r2.drop_first();
        assert(r3 =~= seq![i3]);
        assert(r3[0] == i3 && !noted[i3].finalized);
        let r4 = r3.drop_first();
        assert(r4 =~= Seq::<int>::empty());
        assert(newly_finalized(noted, r4) =~= Seq::<u64>::empty());
        assert(newly_finalized(noted, r3) == seq![noted[i3].id] + newly_finalized(noted, r4));
        assert(newly_finalized(noted, r2) == seq![noted[i2].id] + newly_finalized(noted, r3));
        assert(newly == seq![noted[i1].id] + newly_finalized(noted, r2));
    }
    assert(newly =~= seq![m.blocks[i1].id, m.blocks[i2].id, m.blocks[i3].id]);
    // all three end up finalized
    let fin = finalize_run(noted, run);
    assert(run.contains(i1) && run.contains(i2) && run.contains(i3)) by {
        assert(run[0] == i1 && run[1] == i2 && run[2] == i3);
    }
    assert(fin[i1].finalized && fin[i2].finalized && fin[i3].finalized);
    let (flagged, newly2) = notarize_finalize(m.participants, tallied, ti);
    assert(flagged == fin && newly2 == newly);
    let m2 = step(m, vote).0;
    assert(m2.blocks[i1].finalized && m2.blocks[i2].finalized && m2.blocks[i3].finalized) by {
        if local_votes_now(m, flagged, ti, vote) {
            assert(with_vote(flagged, ti, local_vote(m, vote))[i1].finalized == fin[i1].finalized);
        }
    }
}

// ---------------------------------------------------------------------------
// No double counting
// ---------------------------------------------------------------------------

/// After a vote is accepted, its target block counts its voter.
pub proof fn lemma_accept_has_voter(m: ValidatorModel, vote: Vote)
    requires
        model_wf(m),
        step(m, vote).1 is Ok,
    ensures
        ({
            let ti = block_index_of(m.blocks, vote.block)->Some_0;
            let m1 = step(m, vote).0;
            &&& 0 <= ti < m1.blocks.len()
            &&& has_voter(m1.blocks[ti].votes, vote.public_key)
            &&& m1.blocks[ti].id == vote.block
            &&& m1.blocks[ti].slot == vote.slot
        }),
{
    let m1 = step(m, vote).0;
    let ti = block_index_of(m.blocks, vote.block)->Some_0;
    lemma_block_index_of_first(m.blocks, vote.block);
    let tallied = with_vote(m.blocks, ti, vote);
    assert(has_voter(tallied[ti].votes, vote.public_key)) by {
        if !has_voter(m.blocks[ti].votes, vote.public_key) {
            let nv = m.blocks[ti].votes.push(vote);
            assert(nv[nv.len() - 1].public_key == vote.public_key);
        }
    }
    let (flagged, _n) = notarize_finalize(m.participants, tallied, ti);
    assert(flagged[ti].votes == tallied[ti].votes);
    assert(has_voter(m1.blocks[ti].votes, vote.public_key)) by {
        if local_votes_now(m, flagged, ti, vote) {
            let lv = local_vote(m, vote);
            if !has_voter(flagged[ti].votes, lv.public_key) {
                let i = choose|i: int|
                    0 <= i < flagged[ti].votes.len() && flagged[ti].votes[i].public_key
                        == vote.public_key;
                assert(m1.blocks[ti].votes[i].public_key == vote.public_key);
            }
        }
    }
}

/// Blocks other than the vote's target keep their tallies across a step.
pub proof fn lemma_step_other_votes(m: ValidatorModel, vote: Vote)
    requires
        model_wf(m),
        step(m, vote).1 is Ok,
    ensures
        ({
            let ti = block_index_of(m.blocks, vote.block)->Some_0;
            let m1 = step(m, vote).0;
            &&& m1.blocks.len() == m.blocks.len()
            &&& forall|b: int|
                0 <= b < m.blocks.len() && b != ti ==> (#[trigger] m1.blocks[b]).votes
                    == m.blocks[b].votes
            &&& forall|b: int|
                0 <= b < m.blocks.len() ==> (#[trigger] m1.blocks[b]).id == m.blocks[b].id
                    && m1.blocks[b].slot == m.blocks[b].slot && m1.blocks[b].parent
                    == m.blocks[b].parent
        }),
{
    let ti = block_index_of(m.blocks, vote.block)->Some_0;
    lemma_block_index_of_first(m.blocks, vote.block);
    let tallied = with_vote(m.blocks, ti, vote);
    let (flagged, _n) = notarize_finalize(m.participants, tallied, ti);
    assert(forall|b: int|
        0 <= b < m.blocks.len() ==> (#[trigger] flagged[b]).votes == tallied[b].votes
            && flagged[b].id == tallied[b].id && flagged[b].slot == tallied[b].slot && flagged[
            b].parent == tallied[b].parent);
}

/// Resubmitting a vote that was already accepted changes nothing: the state
/// stays as it is, the tally weight changes by zero, the local node does not
/// vote again, and nothing is reported finalized.
pub proof fn lemma_no_double_counting(m: ValidatorModel, vote: Vote)
    requires
        model_wf(m),
        step(m, vote).1 is Ok,
    ensures
        step(step(m, vote).0, vote).0 == step(m, vote).0,
        step(step(m, vote).0, vote).1 == Ok::<(bool, Seq<u64>), VoteError>((false, Seq::empty())),
{
    let m1 = step(m, vote).0;
    let ti = block_index_of(m.blocks, vote.block)->Some_0;
    lemma_block_index_of_first(m.blocks, vote.block);
    lemma_accept_has_voter(m, vote);
    lemma_step_other_votes(m, vote);
    lemma_step_wf(m, vote);
    let tallied = with_vote(m.blocks, ti, vote);
    let (flagged, _n) = notarize_finalize(m.participants, tallied, ti);
    let trig = local_votes_now(m, flagged, ti, vote);

    // the participant checks still pass on resubmission
    let p0 = participant_of(m.participants, vote.public_key)->Some_0;
    if trig {
        lemma_participant_of_same_keys(
            m.participants,
            mark_voted(m.participants, m.id, vote.slot),
            vote.public_key,
        );
        lemma_roster_size_same(
            m.participants,
            mark_voted(m.participants, m.id, vote.slot),
            vote.slot,
        );
    }
    let p1 = participant_of(m1.participants, vote.public_key)->Some_0;
    assert(p1.quarantined is None && p1.joined <= vote.slot);

    // no equivocation arises from re-tallying the same block
    assert(!equivocates(m1.blocks, vote)) by {
        if equivocates(m1.blocks, vote) {
            let (b, i) = choose|b: int, i: int|
                0 <= b < m1.blocks.len() && 0 <= i < m1.blocks[b].votes.len() && m1.blocks[b].id
                    != vote.block && #[trigger] m1.blocks[b].votes[i].public_key
                    == vote.public_key && m1.blocks[b].slot == vote.slot;
            assert(b != ti);
            assert(m1.blocks[b].votes == m.blocks[b].votes);
            assert(equivocates(m.blocks, vote));
        }
    }

    // the lookup still resolves to the same block
    assert forall|b: int| 0 <= b < m.blocks.len() implies (#[trigger] m.blocks[b]).id
        == m1.blocks[b].id by {}
    lemma_block_index_same_ids(m.blocks, m1.blocks, vote.block);
    assert(block_index_of(m1.blocks, vote.block) == Some(ti));
    assert(reject_reason(m1, vote) is None);

    // the tally is a no-op
    let tallied2 = with_vote(m1.blocks, ti, vote);
    assert(tallied2 == m1.blocks);

    // notarization does not trigger again
    let (flagged2, newly2) = notarize_finalize(m1.participants, m1.blocks, ti);
    assert(flagged2 == m1.blocks && newly2 == Seq::<u64>::empty()) by {
        if !m1.blocks[ti].notarized {
            // the first step did not notarize, so its weight was below quorum
            // and the local node did not vote: the tally is unchanged
            assert(!flagged[ti].notarized);
            assert(!trig);
            assert(m1.blocks[ti].votes == tallied[ti].votes);
            assert(tallied[ti].votes.len() < quorum(roster_size(m.participants, vote.slot)));
            assert(roster_size(m1.participants, m1.blocks[ti].slot) == roster_size(
                m.participants,
                vote.slot,
            ));
        }
    }

    // the local node does not vote again
    assert(!local_votes_now(m1, flagged2, ti, vote)) by {
        if m1.blocks[ti].notarized {
            assert(flagged[ti].notarized);
            match participant_of(m.participants, m.id) {
                Some(lp) => {
                    if trig {
                        // marked as voted at this slot in the first step
                        lemma_participant_of_same_keys(
                            m.participants,
                            mark_voted(m.participants, m.id, vote.slot),
                            m.id,
                        );
                        let lp1 = participant_of(m1.participants, m.id)->Some_0;
                        assert(lp1.voted == Some(vote.slot)) by {
                            lemma_participant_of_mark_voted(m.participants, m.id, vote.slot);
                        }
                    } else {
                        // it was not eligible or had voted already; unchanged
                        assert(m1.participants == m.participants);
                    }
                },
                None => {
                    assert(m1.participants == m.participants);
                },
            }
        }
    }
    assert(step(m1, vote).0 == ValidatorModel { blocks: flagged2, ..m1 });
    assert(ValidatorModel { blocks: flagged2, ..m1 } == m1);
}

/// Looking up the marked key after `mark_voted` returns the marked entry.
pub proof fn lemma_participant_of_mark_voted(ps: Seq<Participant>, key: u64, slot: u64)
    requires
        participant_of(ps, key) is Some,
    ensures
        participant_of(mark_voted(ps, key, slot), key) is Some,
        participant_of(mark_voted(ps, key, slot), key)->Some_0.voted == Some(slot),
{
    let ps2 = mark_voted(ps, key, slot);
    lemma_participant_of_same_keys(ps, ps2, key);
    lemma_participant_of_first(ps2, key);
    let p2 = participant_of(ps2, key)->Some_0;
    let i0 = choose|i0: int|
        0 <= i0 < ps2.len() && ps2[i0] == p2 && ps2[i0].public_key == key && (forall|j: int|
            0 <= j < i0 ==> ps2[j].public_key != key);
    assert(ps2[i0].voted == Some(slot));
}

/// Chain views with the same ids pointwise resolve lookups identically.
pub proof fn lemma_block_index_same_ids(b1: Seq<BlockModel>, b2: Seq<BlockModel>, id: u64)
    requires
        b1.len() == b2.len(),
        forall|i: int| 0 <= i < b1.len() ==> (#[trigger] b1[i]).id == b2[i].id,
    ensures
        block_index_of(b1, id) == block_index_of(b2, id),
    decreases b1.len(),
{
    if b1.len() > 0 {
        if b1[0].id != id {
            assert forall|i: int| 0 <= i < b1.drop_first().len() implies (#[trigger] b1
                .drop_first()[i]).id == b2.drop_first()[i].id by {
                assert(b1.drop_first()[i] == b1[i + 1]);
                assert(b2.drop_first()[i] == b2[i + 1]);
            }
            lemma_block_index_same_ids(b1.drop_first(), b2.drop_first(), id);
        }
    }
}

// ---------------------------------------------------------------------------
// Order independence
// ---------------------------------------------------------------------------

/// The state a sequence of votes drives the validator to, front first.
pub open spec fn apply_votes(m: ValidatorModel, vs: Seq<Vote>) -> ValidatorModel
    decreases vs.len(),
{
    if vs.len() == 0 {
        m
    } else {
        apply_votes(step(m, vs[0]).0, vs.drop_first())
    }
}

/// The distinct voters of a tally.
pub open spec fn voter_set(votes: Seq<Vote>) -> Set<u64> {
    votes.map_values(|v: Vote| v.public_key).to_set()
}

/// The distinct voters of a batch of votes.
pub open spec fn keys_of(vs: Seq<Vote>) -> Set<u64> {
    vs.map_values(|v: Vote| v.public_key).to_set()
}

/// A vote that `m` accepts whenever it arrives: it names block `ti` and that
/// block's slot, its voter is on the roster and eligible, and no other block
/// at the slot carries a vote of the same voter.
pub open spec fn vote_ok(m: ValidatorModel, ti: int, v: Vote) -> bool {
    &&& v.block == m.blocks[ti].id
    &&& v.slot == m.blocks[ti].slot
    &&& (match participant_of(m.participants, v.public_key) {
        Some(p) => eligible(p, v.slot),
        None => false,
    })
    &&& !equivocates(m.blocks, v)
}

/// A whole batch of votes `m` accepts in any order.
pub open spec fn votes_ok(m: ValidatorModel, ti: int, vs: Seq<Vote>) -> bool {
    forall|k: int| 0 <= k < vs.len() ==> vote_ok(m, ti, #[trigger] vs[k])
}

/// Whether the local node may still vote at `slot`.
pub open spec fn local_ok(m: ValidatorModel, slot: u64) -> bool {
    match participant_of(m.participants, m.id) {
        Some(p) => eligible(p, slot) && (match p.voted {
            None => true,
            Some(s) => s < slot,
        }),
        None => false,
    }
}

/// `m` is settled at `ti`: a tally at or past quorum is already notarized.
/// Every state the validator itself produces is settled, since it notarizes
/// the moment a tally crosses the quorum.
pub open spec fn settled(m: ValidatorModel, ti: int) -> bool {
    m.blocks[ti].notarized || voter_set(m.blocks[ti].votes).len() < quorum(
        roster_size(m.participants, m.blocks[ti].slot),
    )
}

/// Whether absorbing the voters `t` notarizes block `ti`.
pub open spec fn sb_notar(m: ValidatorModel, ti: int, t: Set<u64>) -> bool {
    m.blocks[ti].notarized || (voter_set(m.blocks[ti].votes) + t).len() >= quorum(
        roster_size(m.participants, m.blocks[ti].slot),
    )
}

/// Whether absorbing the voters `t` is what notarizes block `ti`.
pub open spec fn sb_event(m: ValidatorModel, ti: int, t: Set<u64>) -> bool {
    !m.blocks[ti].notarized && (voter_set(m.blocks[ti].votes) + t).len() >= quorum(
        roster_size(m.participants, m.blocks[ti].slot),
    )
}

/// The run that finalization would sweep when block `ti` is notarized.
pub open spec fn sb_run(m: ValidatorModel, ti: int) -> Seq<int> {
    chain_run(m.blocks.update(ti, BlockModel { notarized: true, ..m.blocks[ti] }), ti)
}

/// Whether the local node casts its own vote somewhere in the batch.
pub open spec fn sb_trig(m: ValidatorModel, ti: int, t: Set<u64>, ne: bool) -> bool {
    ne && sb_notar(m, ti, t) && local_ok(m, m.blocks[ti].slot)
}

/// The state after block `ti` absorbs the voters `t` (with `ne` saying
/// whether at least one vote arrived), described from the base state `m`:
/// the tally's voter set grows by `t` (plus the local node if it voted), the
/// block is notarized exactly when the weight reaches quorum, a fresh
/// notarization that closes a run of three sweeps the run, and the local
/// node's roster entry is marked when it voted.
pub open spec fn sb_state(
    m: ValidatorModel,
    ti: int,
    t: Set<u64>,
    ne: bool,
    s: ValidatorModel,
) -> bool {
    let slot = m.blocks[ti].slot;
    let run = sb_run(m, ti);
    let fin3 = sb_event(m, ti, t) && run.len() >= 3;
    let trig = sb_trig(m, ti, t, ne);
    &&& s.id == m.id
    &&& s.signature == m.signature
    &&& s.proof == m.proof
    &&& s.participants == (if trig {
        mark_voted(m.participants, m.id, slot)
    } else {
        m.participants
    })
    &&& s.blocks.len() == m.blocks.len()
    &&& forall|b: int|
        0 <= b < m.blocks.len() && b != ti ==> #[trigger] s.blocks[b] == (BlockModel {
            finalized: m.blocks[b].finalized || (fin3 && run.contains(b)),
            ..m.blocks[b]
        })
    &&& s.blocks[ti].id == m.blocks[ti].id
    &&& s.blocks[ti].slot == slot
    &&& s.blocks[ti].parent == m.blocks[ti].parent
    &&& voter_set(s.blocks[ti].votes) == voter_set(m.blocks[ti].votes) + t + (if trig {
        set![m.id]
    } else {
        Set::<u64>::empty()
    })
    &&& s.blocks[ti].votes.len() == voter_set(s.blocks[ti].votes).len()
    &&& s.blocks[ti].notarized == sb_notar(m, ti, t)
    &&& s.blocks[ti].finalized == (m.blocks[ti].finalized || fin3)
}

/// A deduplicated tally has as many votes as distinct voters.
pub proof fn lemma_weight(votes: Seq<Vote>)
    requires
        forall|i: int, j: int|
            0 <= i < j < votes.len() ==> votes[i].public_key != votes[j].public_key,
    ensures
        voter_set(votes).finite(),
        voter_set(votes).len() == votes.len(),
{
    let keys = votes.map_values(|v: Vote| v.public_key);
    assert(keys.no_duplicates());
    keys.unique_seq_to_set();
}

/// Membership in a tally's voter set is exactly `has_voter`.
pub proof fn lemma_voter_set_contains(votes: Seq<Vote>, key: u64)
    ensures
        voter_set(votes).contains(key) == has_voter(votes, key),
{
    let keys = votes.map_values(|v: Vote| v.public_key);
    if has_voter(votes, key) {
        let i = choose|i: int| 0 <= i < votes.len() && votes[i].public_key == key;
        assert(keys[i] == key);
        assert(keys.contains(key));
    }
    if keys.contains(key) {
        let i = choose|i: int| 0 <= i < keys.len() && keys[i] == key;
        assert(votes[i].public_key == key);
    }
}

/// Pushing a vote extends the voter set by its voter.
pub proof fn lemma_voter_set_push(votes: Seq<Vote>, v: Vote)
    ensures
        voter_set(votes.push(v)) == voter_set(votes).insert(v.public_key),
{
    let keys = votes.map_values(|va: Vote| va.public_key);
    let keys2 = votes.push(v).map_values(|va: Vote| va.public_key);
    assert(keys2 =~= keys.push(v.public_key));
    assert forall|x: u64| #[trigger] voter_set(votes.push(v)).contains(x) implies voter_set(
        votes,
    ).insert(v.public_key).contains(x) by {
        let i = choose|i: int| 0 <= i < keys2.len() && keys2[i] == x;
        if i < keys.len() {
            assert(keys[i] == x);
        }
    }
    assert forall|x: u64| #[trigger] voter_set(votes).insert(v.public_key).contains(x) implies
        voter_set(votes.push(v)).contains(x) by {
        if x == v.public_key {
            assert(keys2[keys2.len() - 1] == x);
        } else {
            let i = choose|i: int| 0 <= i < keys.len() && keys[i] == x;
            assert(keys2[i] == x);
        }
    }
    assert(voter_set(votes.push(v)) =~= voter_set(votes).insert(v.public_key));
}

/// Chain views that agree on ids, slots, parent links and notarization flags
/// have the same runs (the walk never reads tallies or finalization flags).
pub proof fn lemma_chain_run_same_shape(b1: Seq<BlockModel>, b2: Seq<BlockModel>, i: int)
    requires
        b1.len() == b2.len(),
        0 <= i < b1.len(),
        forall|b: int|
            0 <= b < b1.len() ==> (#[trigger] b1[b]).id == b2[b].id && b1[b].slot == b2[b].slot
                && b1[b].parent == b2[b].parent && b1[b].notarized == b2[b].notarized,
    ensures
        chain_run(b1, i) == chain_run(b2, i),
    decreases b1[i].slot,
{
    match b1[i].parent {
        None => {},
        Some(pid) => {
            lemma_block_index_same_ids(b1, b2, pid);
            lemma_block_index_of_first(b1, pid);
            match block_index_of(b1, pid) {
                None => {},
                Some(j) => {
                    if b1[j].notarized && b1[j].slot < b1[i].slot {
                        lemma_chain_run_same_shape(b1, b2, j);
                    }
                },
            }
        },
    }
}

/// The empty batch: the base state describes itself.
pub proof fn lemma_sb_base(m: ValidatorModel, ti: int)
    requires
        model_wf(m),
        0 <= ti < m.blocks.len(),
        settled(m, ti),
    ensures
        sb_state(m, ti, Set::empty(), false, m),
{
    broadcast use vstd::seq_lib::group_seq_properties;

    assert(voter_set(m.blocks[ti].votes) + Set::<u64>::empty() + Set::<u64>::empty() =~= voter_set(
        m.blocks[ti].votes,
    ));
    assert(voter_set(m.blocks[ti].votes) + Set::<u64>::empty() =~= voter_set(m.blocks[ti].votes));
    assert(block_wf(m.blocks[ti]));
    lemma_weight(m.blocks[ti].votes);
    assert forall|b: int| 0 <= b < m.blocks.len() && b != ti implies #[trigger] m.blocks[b]
        == (BlockModel { finalized: m.blocks[b].finalized || false, ..m.blocks[b] }) by {}
}

/// One accepted vote moves a described state to the description with its
/// voter absorbed.
pub proof fn lemma_sb_step(
    m: ValidatorModel,
    ti: int,
    t: Set<u64>,
    ne: bool,
    s: ValidatorModel,
    v: Vote,
)
    requires
        model_wf(m),
        model_wf(s),
        0 <= ti < m.blocks.len(),
        settled(m, ti),
        t.finite(),
        sb_state(m, ti, t, ne, s),
        vote_ok(m, ti, v),
    ensures
        step(s, v).1 is Ok,
        model_wf(step(s, v).0),
        sb_state(m, ti, t.insert(v.public_key), true, step(s, v).0),
{
    broadcast use vstd::set::axiom_set_insert_len;
    broadcast use vstd::seq_lib::seq_to_set_is_finite;

    lemma_step_wf(s, v);
    let slot = m.blocks[ti].slot;
    let q = quorum(roster_size(m.participants, slot));
    let old_vs = voter_set(m.blocks[ti].votes);
    let run = sb_run(m, ti);
    let trig = sb_trig(m, ti, t, ne);
    let fin3 = sb_event(m, ti, t) && run.len() >= 3;
    let x = v.public_key;
    let t2 = t.insert(x);
    assert(block_wf(m.blocks[ti]));
    lemma_weight(m.blocks[ti].votes);
    assert(old_vs.finite());
    assert((old_vs + t).finite());

    // --- the vote is accepted ---
    if trig {
        lemma_participant_of_same_keys(
            m.participants,
            mark_voted(m.participants, m.id, slot),
            x,
        );
        lemma_roster_size_same(m.participants, mark_voted(m.participants, m.id, slot), slot);
    }
    let ps = participant_of(s.participants, x)->Some_0;
    assert(participant_of(s.participants, x) is Some && ps.quarantined is None && ps.joined
        <= v.slot);
    assert forall|b: int| 0 <= b < m.blocks.len() implies (#[trigger] s.blocks[b]).id
        == m.blocks[b].id && s.blocks[b].slot == m.blocks[b].slot && s.blocks[b].parent
        == m.blocks[b].parent by {}
    lemma_block_index_of_self(m.blocks, ti);
    lemma_block_index_same_ids(m.blocks, s.blocks, v.block);
    assert(block_index_of(s.blocks, v.block) == Some(ti));
    assert(!equivocates(s.blocks, v)) by {
        if equivocates(s.blocks, v) {
            let (b, i) = choose|b: int, i: int|
                0 <= b < s.blocks.len() && 0 <= i < s.blocks[b].votes.len() && s.blocks[b].id
                    != v.block && s.blocks[b].slot == v.slot && #[trigger] s.blocks[
                    b].votes[i].public_key == v.public_key;
            assert(b != ti);
            assert(s.blocks[b].votes == m.blocks[b].votes);
            assert(equivocates(m.blocks, v));
        }
    }
    assert(reject_reason(s, v) is None);

    // --- the tally absorbs the voter ---
    let tallied = with_vote(s.blocks, ti, v);
    lemma_voter_set_contains(s.blocks[ti].votes, x);
    if has_voter(s.blocks[ti].votes, x) {
        assert(tallied == s.blocks);
        assert(voter_set(tallied[ti].votes) =~= old_vs + t2 + (if trig {
            set![m.id]
        } else {
            Set::<u64>::empty()
        }));
    } else {
        assert(tallied[ti].votes == s.blocks[ti].votes.push(v));
        lemma_voter_set_push(s.blocks[ti].votes, v);
        assert(voter_set(tallied[ti].votes) =~= old_vs + t2 + (if trig {
            set![m.id]
        } else {
            Set::<u64>::empty()
        }));
    }
    assert(tallied[ti].votes.len() == voter_set(tallied[ti].votes).len());
    assert(forall|b: int| 0 <= b < m.blocks.len() && b != ti ==> #[trigger] tallied[b] == s.blocks[b]);

    // --- notarization and finalization ---
    if trig {
        lemma_roster_size_same(m.participants, s.participants, slot);
    }
    assert(roster_size(s.participants, tallied[ti].slot) == roster_size(m.participants, slot));
    let (flagged, _nw) = notarize_finalize(s.participants, tallied, ti);
    let run2 = sb_run(m, ti);
    if s.blocks[ti].notarized {
        // already notarized: the flags stay where they are
        assert(flagged == tallied);
        assert(sb_notar(m, ti, t2)) by {
            if !m.blocks[ti].notarized {
                assert((old_vs + t).subset_of(old_vs + t2));
                vstd::set_lib::lemma_len_subset(old_vs + t, old_vs + t2);
            }
        }
        assert(sb_event(m, ti, t2) == sb_event(m, ti, t)) by {
            if !m.blocks[ti].notarized {
                assert((old_vs + t).subset_of(old_vs + t2));
                vstd::set_lib::lemma_len_subset(old_vs + t, old_vs + t2);
                if sb_event(m, ti, t2) && !sb_event(m, ti, t) {
                    // the weight was below quorum, so the block was not
                    // notarized in s: contradiction
                    assert(!sb_notar(m, ti, t));
                }
            }
        }
    } else {
        // not yet notarized: no local vote has happened, the tally is bare
        assert(!trig);
        assert(!m.blocks[ti].notarized && (old_vs + t).len() < q);
        assert(s.participants == m.participants);
        assert(voter_set(s.blocks[ti].votes) =~= old_vs + t + Set::<u64>::empty());
        assert(voter_set(tallied[ti].votes) =~= old_vs + t2);
        let w2 = tallied[ti].votes.len();
        if w2 >= q {
            // this vote notarizes the block
            assert(sb_event(m, ti, t2) && sb_notar(m, ti, t2));
            let noted = tallied.update(ti, BlockModel { notarized: true, ..tallied[ti] });
            let mnoted = m.blocks.update(ti, BlockModel { notarized: true, ..m.blocks[ti] });
            assert forall|b: int| 0 <= b < noted.len() implies (#[trigger] noted[b]).id
                == mnoted[b].id && noted[b].slot == mnoted[b].slot && noted[b].parent
                == mnoted[b].parent && noted[b].notarized == mnoted[b].notarized by {
                if b != ti {
                    assert(s.blocks[b] == (BlockModel {
                        finalized: m.blocks[b].finalized || false,
                        ..m.blocks[b]
                    }));
                }
            }
            lemma_chain_run_same_shape(noted, mnoted, ti);
            assert(chain_run(noted, ti) == run);
            lemma_chain_run_props(noted, ti);
            if run.len() >= 3 {
                assert(run[run.len() - 1] == ti && run.contains(ti));
                assert forall|b: int|
                    0 <= b < m.blocks.len() && b != ti implies #[trigger] flagged[b]
                    == (BlockModel {
                    finalized: m.blocks[b].finalized || run.contains(b),
                    ..m.blocks[b]
                }) by {
                    assert(s.blocks[b] == (BlockModel {
                        finalized: m.blocks[b].finalized || false,
                        ..m.blocks[b]
                    }));
                }
                assert(flagged[ti].finalized);
            } else {
                assert(flagged == noted);
            }
        } else {
            assert(flagged == tallied);
            assert(!sb_notar(m, ti, t2) && !sb_event(m, ti, t2));
        }
    }
    let notar2 = sb_notar(m, ti, t2);
    let fin32 = sb_event(m, ti, t2) && run.len() >= 3;
    assert(flagged[ti].notarized == notar2);
    assert(flagged[ti].finalized == (m.blocks[ti].finalized || fin32)) by {
        if s.blocks[ti].notarized {
            assert(fin32 == fin3);
        } else {
            assert(!fin3);
        }
    }
    assert(flagged[ti].id == m.blocks[ti].id && flagged[ti].slot == slot && flagged[ti].parent
        == m.blocks[ti].parent);
    assert forall|b: int| 0 <= b < m.blocks.len() && b != ti implies #[trigger] flagged[b]
        == (BlockModel {
        finalized: m.blocks[b].finalized || (fin32 && run.contains(b)),
        ..m.blocks[b]
    }) by {
        if s.blocks[ti].notarized {
            assert(flagged[b] == s.blocks[b]);
            assert(fin32 == fin3);
        }
    }

    // --- the local node's own vote ---
    let trig2 = sb_trig(m, ti, t2, true);
    let s2 = step(s, v).0;
    if local_votes_now(s, flagged, ti, v) {
        // the local node votes here: it was possible (notarized now, local
        // eligible and unmarked), so the description gains its key and mark
        assert(flagged[ti].notarized);
        let lps = participant_of(s.participants, s.id)->Some_0;
        assert(!trig) by {
            if trig {
                lemma_participant_of_mark_voted(m.participants, m.id, slot);
                lemma_participant_of_same_keys(
                    m.participants,
                    mark_voted(m.participants, m.id, slot),
                    m.id,
                );
            }
        }
        assert(s.participants == m.participants);
        assert(local_ok(m, slot));
        assert(trig2);
        let lv = local_vote(s, v);
        assert(lv.public_key == m.id);
        let blocks2 = with_vote(flagged, ti, lv);
        lemma_voter_set_contains(flagged[ti].votes, m.id);
        if has_voter(flagged[ti].votes, m.id) {
            assert(blocks2 == flagged);
            assert(voter_set(blocks2[ti].votes) =~= old_vs + t2 + set![m.id]);
        } else {
            assert(blocks2[ti].votes == flagged[ti].votes.push(lv));
            lemma_voter_set_push(flagged[ti].votes, lv);
            assert(voter_set(blocks2[ti].votes) =~= old_vs + t2 + set![m.id]);
        }
        assert(s2.participants == mark_voted(m.participants, m.id, slot));
        assert(s2.blocks == blocks2);
        assert(forall|b: int|
            0 <= b < m.blocks.len() && b != ti ==> #[trigger] blocks2[b] == flagged[b]);
    } else {
        assert(s2.blocks == flagged);
        assert(s2.participants == s.participants);
        // the description does not gain the local key either
        if trig {
            // the local node voted earlier in the batch: its key is already
            // absorbed and its roster entry marked
            assert(trig2) by {
                assert(sb_notar(m, ti, t2)) by {
                    if !m.blocks[ti].notarized {
                        assert((old_vs + t).subset_of(old_vs + t2));
                        vstd::set_lib::lemma_len_subset(old_vs + t, old_vs + t2);
                    }
                }
            }
            assert(voter_set(s2.blocks[ti].votes) =~= old_vs + t2 + set![m.id]) by {
                lemma_voter_set_contains(s.blocks[ti].votes, x);
                assert(voter_set(s.blocks[ti].votes).contains(m.id));
            }
        } else {
            assert(!trig2 ==> voter_set(s2.blocks[ti].votes) =~= old_vs + t2
                + Set::<u64>::empty());
            if trig2 {
                // notarized and the local node still could vote: then the
                // step would have voted, contradiction
                assert(flagged[ti].notarized);
                assert(local_ok(m, slot));
                assert(s.participants == m.participants) by {
                    assert(!trig);
                }
                assert(local_votes_now(s, flagged, ti, v));
                assert(false);
            }
        }
    }
}

/// A whole batch of acceptable votes lands on the description with all its
/// voters absorbed.
pub proof fn lemma_sb_batch(
    m: ValidatorModel,
    ti: int,
    t: Set<u64>,
    ne: bool,
    s: ValidatorModel,
    vs: Seq<Vote>,
)
    requires
        model_wf(m),
        model_wf(s),
        0 <= ti < m.blocks.len(),
        settled(m, ti),
        t.finite(),
        sb_state(m, ti, t, ne, s),
        votes_ok(m, ti, vs),
    ensures
        model_wf(apply_votes(s, vs)),
        sb_state(m, ti, t + keys_of(vs), ne || vs.len() > 0, apply_votes(s, vs)),
    decreases vs.len(),
{
    if vs.len() == 0 {
        assert(t + keys_of(vs) =~= t) by {
            if exists|x: u64| keys_of(vs).contains(x) {
                let x = choose|x: u64| keys_of(vs).contains(x);
                let keys = vs.map_values(|va: Vote| va.public_key);
                let i = choose|i: int| 0 <= i < keys.len() && keys[i] == x;
            }
        }
    } else {
        let v0 = vs[0];
        assert(vote_ok(m, ti, v0));
        lemma_sb_step(m, ti, t, ne, s, v0);
        let s1 = step(s, v0).0;
        assert forall|k: int| 0 <= k < vs.drop_first().len() implies vote_ok(
            m,
            ti,
            #[trigger] vs.drop_first()[k],
        ) by {
            assert(vs.drop_first()[k] == vs[k + 1]);
        }
        lemma_sb_batch(m, ti, t.insert(v0.public_key), true, s1, vs.drop_first());
        assert(t.insert(v0.public_key) + keys_of(vs.drop_first()) =~= t + keys_of(vs)) by {
            let keys = vs.map_values(|va: Vote| va.public_key);
            let keysr = vs.drop_first().map_values(|va: Vote| va.public_key);
            assert(keysr =~= keys.drop_first());
            assert forall|x: u64| #[trigger] keys_of(vs).contains(x) implies t.insert(
                v0.public_key,
            ).union(keys_of(vs.drop_first())).contains(x) || t.contains(x) by {
                let i = choose|i: int| 0 <= i < keys.len() && keys[i] == x;
                if i == 0 {
                    assert(x == v0.public_key);
                } else {
                    assert(keysr[i - 1] == x);
                    assert(keys_of(vs.drop_first()).contains(x));
                }
            }
            assert forall|x: u64| #[trigger] keys_of(vs.drop_first()).contains(x) implies keys_of(
                vs,
            ).contains(x) by {
                let i = choose|i: int| 0 <= i < keysr.len() && keysr[i] == x;
                assert(keys[i + 1] == x);
            }
            assert(keys[0] == v0.public_key);
            assert(keys_of(vs).contains(v0.public_key));
        }
    }
}

/// Order independence: two arrival orders of one batch of acceptable votes
/// for one block leave every block with the same notarization flag, the same
/// finalization flag, and the same distinct-voter tally.
pub proof fn lemma_order_independence(m: ValidatorModel, ti: int, vs1: Seq<Vote>, vs2: Seq<Vote>)
    requires
        model_wf(m),
        0 <= ti < m.blocks.len(),
        settled(m, ti),
        votes_ok(m, ti, vs1),
        vs1.to_multiset() == vs2.to_multiset(),
    ensures
        ({
            let ma = apply_votes(m, vs1);
            let mb = apply_votes(m, vs2);
            &&& ma.blocks.len() == m.blocks.len()
            &&& mb.blocks.len() == m.blocks.len()
            &&& forall|b: int|
                0 <= b < m.blocks.len() ==> (#[trigger] ma.blocks[b]).notarized
                    == mb.blocks[b].notarized && ma.blocks[b].finalized == mb.blocks[b].finalized
                    && voter_set(ma.blocks[b].votes) == voter_set(mb.blocks[b].votes)
        }),
{
    broadcast use vstd::seq_lib::group_to_multiset_ensures;

    // validity and voter keys carry across the permutation
    assert forall|k: int| 0 <= k < vs2.len() implies vote_ok(m, ti, #[trigger] vs2[k]) by {
        assert(vs2.contains(vs2[k]));
        assert(vs2.to_multiset().count(vs2[k]) > 0);
        assert(vs1.to_multiset().count(vs2[k]) > 0);
        assert(vs1.contains(vs2[k]));
        let j = choose|j: int| 0 <= j < vs1.len() && vs1[j] == vs2[k];
    }
    assert(vs1.len() == vs2.len()) by {
        assert(vs1.to_multiset().len() == vs1.len());
        assert(vs2.to_multiset().len() == vs2.len());
    }
    assert(keys_of(vs1) =~= keys_of(vs2)) by {
        let k1 = vs1.map_values(|va: Vote| va.public_key);
        let k2 = vs2.map_values(|va: Vote| va.public_key);
        assert forall|x: u64| #[trigger] keys_of(vs1).contains(x) implies keys_of(vs2).contains(
            x,
        ) by {
            let i = choose|i: int| 0 <= i < k1.len() && k1[i] == x;
            assert(vs1.contains(vs1[i]));
            assert(vs1.to_multiset().count(vs1[i]) > 0);
            assert(vs2.to_multiset().count(vs1[i]) > 0);
            assert(vs2.contains(vs1[i]));
            let j = choose|j: int| 0 <= j < vs2.len() && vs2[j] == vs1[i];
            assert(k2[j] == x);
        }
        assert forall|x: u64| #[trigger] keys_of(vs2).contains(x) implies keys_of(vs1).contains(
            x,
        ) by {
            let i = choose|i: int| 0 <= i < k2.len() && k2[i] == x;
            assert(vs2.contains(vs2[i]));
            assert(vs2.to_multiset().count(vs2[i]) > 0);
            assert(vs1.to_multiset().count(vs2[i]) > 0);
            assert(vs1.contains(vs2[i]));
            let j = choose|j: int| 0 <= j < vs1.len() && vs1[j] == vs2[i];
            assert(k1[j] == x);
        }
    }
    lemma_sb_base(m, ti);
    assert(Set::<u64>::empty().finite());
    lemma_sb_batch(m, ti, Set::empty(), false, m, vs1);
    lemma_sb_batch(m, ti, Set::empty(), false, m, vs2);
    let ma = apply_votes(m, vs1);
    let mb = apply_votes(m, vs2);
    let ta = Set::<u64>::empty() + keys_of(vs1);
    let tb = Set::<u64>::empty() + keys_of(vs2);
    assert(ta =~= tb);
    assert((vs1.len() > 0) == (vs2.len() > 0));
    assert forall|b: int| 0 <= b < m.blocks.len() implies (#[trigger] ma.blocks[b]).notarized
        == mb.blocks[b].notarized && ma.blocks[b].finalized == mb.blocks[b].finalized && voter_set(
        ma.blocks[b].votes,
    ) == voter_set(mb.blocks[b].votes) by {
        if b != ti {
            assert(ma.blocks[b] == (BlockModel {
                finalized: m.blocks[b].finalized || (sb_event(m, ti, ta) && sb_run(m, ti).len()
                    >= 3 && sb_run(m, ti).contains(b)),
                ..m.blocks[b]
            }));
            assert(mb.blocks[b] == (BlockModel {
                finalized: m.blocks[b].finalized || (sb_event(m, ti, tb) && sb_run(m, ti).len()
                    >= 3 && sb_run(m, ti).contains(b)),
                ..m.blocks[b]
            }));
        }
    }
}

/// Every state the validator itself produces is settled: one step notarizes
/// a block the moment its tally reaches the quorum, so a state with an
/// unnotarized block at or past quorum never arises. This is why
/// [`lemma_order_independence`] may assume its base state settled.
pub proof fn lemma_step_preserves_settled(m: ValidatorModel, vote: Vote, b: int)
    requires
        model_wf(m),
        0 <= b < m.blocks.len(),
        settled(m, b),
    ensures
        settled(step(m, vote).0, b),
{
    let m2 = step(m, vote).0;
    if reject_reason(m, vote) is Some {
    } else {
        let ti = block_index_of(m.blocks, vote.block)->Some_0;
        lemma_block_index_of_first(m.blocks, vote.block);
        lemma_step_wf(m, vote);
        let tallied = with_vote(m.blocks, ti, vote);
        let (flagged, _n) = notarize_finalize(m.participants, tallied, ti);
        let trig = local_votes_now(m, flagged, ti, vote);
        if trig {
            lemma_roster_size_same(
                m.participants,
                mark_voted(m.participants, m.id, vote.slot),
                m2.blocks[b].slot,
            );
        }
        assert(roster_size(m2.participants, m2.blocks[b].slot) == roster_size(
            m.participants,
            m2.blocks[b].slot,
        ));
        if b != ti {
            assert(m2.blocks[b].votes == m.blocks[b].votes && m2.blocks[b].notarized
                == m.blocks[b].notarized && m2.blocks[b].slot == m.blocks[b].slot);
        } else {
            if !m2.blocks[ti].notarized {
                // the step did not notarize, so the post-tally weight is
                // below quorum and the local node did not vote
                assert(!flagged[ti].notarized && !tallied[ti].notarized);
                assert(tallied[ti].votes.len() < quorum(
                    roster_size(m.participants, tallied[ti].slot),
                ));
                assert(!trig);
                assert(m2.blocks[ti].votes == tallied[ti].votes);
                assert(block_wf(m2.blocks[ti])) by {
                    assert(model_wf(step(m, vote).0));
                }
                lemma_weight(m2.blocks[ti].votes);
            }
        }
        if !m2.blocks[b].notarized && b != ti {
            assert(block_wf(m.blocks[b]));
            lemma_weight(m.blocks[b].votes);
            lemma_weight(m2.blocks[b].votes);
        }
    }
}

} // verus!
