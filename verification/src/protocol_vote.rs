//! The per-channel vote protocol's decision step.
//!
//! The long-running task that owns a peer channel repeats one iteration:
//! receive the next vote, feed it to the validator, and act on the result.
//! The decision — what to send where — is computed here; the surrounding
//! loop, the receive and the sends are the runtime's job.

use vstd::prelude::*;

use crate::consensus::Vote;
use crate::validator::{step, Validator, VoteError};

verus! {

/// What one received vote obliges the node to send: the vote echoed on the
/// consensus network to every peer but its sender (when the local node
/// voted), and the newly finalized block ids announced on the separate sync
/// network.
pub struct VoteActions {
    /// The vote to re-broadcast on the consensus network, if any.
    pub rebroadcast: Option<Vote>,
    /// The sending channel's address, which the echo must skip.
    pub exclude: u64,
    /// Newly finalized block ids to announce on the sync network, oldest
    /// first.
    pub announce: Vec<u64>,
}

/// One iteration of the vote protocol: feeds the vote to the validator. A
/// rejected vote produces its reason and no traffic (the caller logs it and
/// the loop continues — one bad vote never ends a channel's participation).
/// An accepted vote is echoed, excluding its sender, exactly when the local
/// node voted, and the finalization announcements ride along with it.
pub fn handle_vote(state: &mut Validator, vote: &Vote, channel_address: u64) -> (r: Result<
    VoteActions,
    VoteError,
>)
    requires
        old(state).wf(),
    ensures
        final(state).wf(),
        final(state).model() == step(old(state).model(), *vote).0,
        (match r {
            Ok(actions) => {
                let res = step(old(state).model(), *vote).1;
                &&& res is Ok
                &&& actions.exclude == channel_address
                &&& actions.rebroadcast == (if res->Ok_0.0 {
                    Some(*vote)
                } else {
                    None::<Vote>
                })
                &&& actions.announce@ == (if res->Ok_0.0 {
                    res->Ok_0.1
                } else {
                    Seq::<u64>::empty()
                })
            },
            Err(e) => step(old(state).model(), *vote).1 == Err::<(bool, Seq<u64>), VoteError>(e),
        }),
{
    match state.receive_vote(vote) {
        Ok((voted, finalized)) => {
            let rebroadcast = if voted {
                Some(*vote)
            } else {
                None
            };
            let announce = if voted {
                match finalized {
                    Some(ids) => ids,
                    None => Vec::new(),
                }
            } else {
                Vec::new()
            };
            proof {
                assert(announce@ == (if step(old(state).model(), *vote).1->Ok_0.0 {
                    step(old(state).model(), *vote).1->Ok_0.1
                } else {
                    Seq::<u64>::empty()
                })) by {
                    if !voted || finalized is None {
                        assert(announce@ =~= Seq::<u64>::empty());
                    }
                }
            }
            Ok(VoteActions { rebroadcast, exclude: channel_address, announce })
        },
        Err(e) => Err(e),
    }
}

} // verus!
