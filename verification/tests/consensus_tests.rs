use darkfi_core::consensus::{Metadata, Participant, ParticipantMap, StreamletMetadata, Vote};
use darkfi_core::serial::{deserialize, serialize, Encodable};
use darkfi_core::validator::{Validator, VoteError};

fn vote(key: u64, block: u64, slot: u64) -> Vote {
    Vote::new(key, block, slot, 900 + key, 800 + key)
}

/// Roster {A, B, C} with keys 1, 2, 3; the local node is C (key 3).
fn three_node_validator() -> Validator {
    let mut v = Validator::new(3, 33, 34);
    assert!(v.add_participant(Participant::new(1, 101, 0)));
    assert!(v.add_participant(Participant::new(2, 102, 0)));
    assert!(v.add_participant(Participant::new(3, 103, 0)));
    v
}

#[test]
fn quorum_scenario_three_nodes() {
    // roster {A, B, C}: the quorum is 2 (the two-thirds ceiling of 3)
    let mut v = three_node_validator();
    assert!(v.add_block(10, 1, None));

    // Vote(A, X): not notarized
    let r = v.receive_vote(&vote(1, 10, 1)).unwrap();
    assert_eq!(r, (false, None));
    assert!(!v.blocks[0].sm.notarized);
    assert_eq!(v.blocks[0].sm.votes.len(), 1);

    // Vote(B, X): notarized; the local node C had not voted, so it votes
    let r = v.receive_vote(&vote(2, 10, 1)).unwrap();
    assert_eq!(r, (true, None));
    assert!(v.blocks[0].sm.notarized);
    assert_eq!(v.blocks[0].sm.votes.len(), 3);

    // Vote(C, X) arriving from the network is a duplicate: no tally change
    let r = v.receive_vote(&vote(3, 10, 1)).unwrap();
    assert_eq!(r, (false, None));
    assert_eq!(v.blocks[0].sm.votes.len(), 3);
}

#[test]
fn resubmission_changes_nothing() {
    let mut v = three_node_validator();
    assert!(v.add_block(10, 1, None));
    let w = vote(1, 10, 1);
    v.receive_vote(&w).unwrap();
    let len_before = v.blocks[0].sm.votes.len();
    let r = v.receive_vote(&w).unwrap();
    assert_eq!(r, (false, None));
    assert_eq!(v.blocks[0].sm.votes.len(), len_before);
}

#[test]
fn equivocation_is_rejected_and_first_stands() {
    let mut v = three_node_validator();
    assert!(v.add_block(10, 1, None));
    assert!(v.add_block(11, 1, None));
    v.receive_vote(&vote(1, 10, 1)).unwrap();
    // the same voter backs a different block at the same slot
    let r = v.receive_vote(&vote(1, 11, 1));
    assert_eq!(r, Err(VoteError::Equivocation));
    // the first vote stands, the second block has none
    assert_eq!(v.blocks[0].sm.votes.len(), 1);
    assert_eq!(v.blocks[1].sm.votes.len(), 0);
}

#[test]
fn rejection_reasons() {
    let mut v = three_node_validator();
    assert!(v.add_participant(Participant {
        public_key: 4,
        address: 104,
        joined: 0,
        voted: None,
        quarantined: Some(1),
    }));
    assert!(v.add_participant(Participant::new(5, 105, 9)));
    assert!(v.add_block(10, 1, None));
    assert!(v.add_block(12, 2, None));

    // unknown voter
    assert_eq!(v.receive_vote(&vote(9, 10, 1)), Err(VoteError::UnknownParticipant));
    // quarantined voter
    assert_eq!(v.receive_vote(&vote(4, 10, 1)), Err(VoteError::Quarantined));
    // joined after the slot: not in the active roster for it
    assert_eq!(v.receive_vote(&vote(5, 10, 1)), Err(VoteError::UnknownParticipant));
    // unknown block
    assert_eq!(v.receive_vote(&vote(1, 99, 1)), Err(VoteError::UnknownBlock));
    // the vote names a slot other than the block's
    assert_eq!(v.receive_vote(&vote(1, 12, 1)), Err(VoteError::SlotMismatch));
}

#[test]
fn finalization_chain_rule_three_blocks() {
    // B1 <- B2 <- B3 with slots 1 < 2 < 3; notarize them in order
    let mut v = three_node_validator();
    assert!(v.add_block(1, 1, None));
    assert!(v.add_block(2, 2, Some(1)));
    assert!(v.add_block(3, 3, Some(2)));

    // notarize B1 (votes of A and B; C votes too once notarized)
    assert_eq!(v.receive_vote(&vote(1, 1, 1)).unwrap(), (false, None));
    assert_eq!(v.receive_vote(&vote(2, 1, 1)).unwrap(), (true, None));
    // notarize B2
    assert_eq!(v.receive_vote(&vote(1, 2, 2)).unwrap(), (false, None));
    assert_eq!(v.receive_vote(&vote(2, 2, 2)).unwrap(), (true, None));
    assert!(!v.blocks[0].sm.finalized);

    // the vote that notarizes B3 finalizes the whole run, oldest first
    assert_eq!(v.receive_vote(&vote(1, 3, 3)).unwrap(), (false, None));
    let r = v.receive_vote(&vote(2, 3, 3)).unwrap();
    assert_eq!(r, (true, Some(vec![1u64, 2, 3])));
    assert!(v.blocks[0].sm.finalized && v.blocks[1].sm.finalized && v.blocks[2].sm.finalized);

    // later calls never re-return the finalized blocks
    assert!(v.add_block(4, 4, Some(3)));
    assert_eq!(v.receive_vote(&vote(1, 4, 4)).unwrap(), (false, None));
    let r = v.receive_vote(&vote(2, 4, 4)).unwrap();
    assert_eq!(r, (true, Some(vec![4u64])));
}

#[test]
fn order_independence_of_one_block_tally() {
    // the same three votes in two arrival orders give the same flags and
    // the same distinct-voter tally
    let orders: [[u64; 3]; 2] = [[1, 2, 3], [3, 2, 1]];
    let mut outcomes = Vec::new();
    for order in orders {
        let mut v = three_node_validator();
        assert!(v.add_block(10, 1, None));
        for key in order {
            let _ = v.receive_vote(&vote(key, 10, 1));
        }
        let mut voters: Vec<u64> =
            v.blocks[0].sm.votes.iter().map(|w| w.public_key).collect();
        voters.sort();
        outcomes.push((v.blocks[0].sm.notarized, v.blocks[0].sm.finalized, voters));
    }
    assert_eq!(outcomes[0], outcomes[1]);
    assert_eq!(outcomes[0].2, vec![1u64, 2, 3]);
}

#[test]
fn flags_are_monotone() {
    let mut v = three_node_validator();
    assert!(v.add_block(10, 1, None));
    v.receive_vote(&vote(1, 10, 1)).unwrap();
    v.receive_vote(&vote(2, 10, 1)).unwrap();
    assert!(v.blocks[0].sm.notarized);
    // whatever else arrives, the flag never clears
    let _ = v.receive_vote(&vote(3, 10, 1));
    let _ = v.receive_vote(&vote(1, 10, 1));
    assert!(v.blocks[0].sm.notarized);
}

#[test]
fn participant_codec_round_trip() {
    let p = Participant { public_key: 7, address: 70, joined: 2, voted: Some(5), quarantined: None };
    let bytes = serialize(&p);
    assert_eq!(bytes.len(), 8 + 8 + 8 + 9 + 1);
    assert_eq!(deserialize::<Participant>(&bytes).unwrap(), p);
}

#[test]
fn vote_codec_round_trip() {
    let w = Vote::new(1, 2, 3, 4, 5);
    let bytes = serialize(&w);
    assert_eq!(
        bytes,
        vec![
            1u8, 0, 0, 0, 0, 0, 0, 0, 2, 0, 0, 0, 0, 0, 0, 0, 3, 0, 0, 0, 0, 0, 0, 0, 4, 0, 0,
            0, 0, 0, 0, 0, 5, 0, 0, 0, 0, 0, 0, 0,
        ]
    );
    assert_eq!(deserialize::<Vote>(&bytes).unwrap(), w);
}

#[test]
fn metadata_codec_round_trip() {
    let m = Metadata::new(
        "proof".to_string(),
        "seed".to_string(),
        "sig".to_string(),
        vec![Participant::new(1, 10, 0), Participant::new(2, 20, 0)],
    );
    let bytes = serialize(&m);
    let back = deserialize::<Metadata>(&bytes).unwrap();
    assert_eq!(back, m);
}

#[test]
fn streamlet_metadata_codec_round_trip() {
    let mut sm = StreamletMetadata::new();
    assert!(!sm.notarized && !sm.finalized && sm.votes.is_empty());
    sm.votes.push(Vote::new(1, 2, 3, 4, 5));
    sm.notarized = true;
    let bytes = serialize(&sm);
    let back = deserialize::<StreamletMetadata>(&bytes).unwrap();
    assert_eq!(back, sm);
}

#[test]
fn participant_map_keyed_by_address() {
    let mut m = ParticipantMap::new();
    m.insert(Participant::new(1, 30, 0));
    m.insert(Participant::new(2, 10, 0));
    m.insert(Participant::new(3, 20, 0));
    // keyed by address: a second entry at an address replaces the first
    m.insert(Participant::new(9, 10, 5));
    assert_eq!(m.len(), 3);
    assert_eq!(m.get(10).unwrap().public_key, 9);
    assert_eq!(m.get(20).unwrap().public_key, 3);
    assert!(m.get(99).is_none());
    // entries travel in ascending address order
    let addrs: Vec<u64> = m.entries.iter().map(|p| p.address).collect();
    assert_eq!(addrs, vec![10u64, 20, 30]);

    // the wire form round-trips through the ordered-map decoder
    let mut bytes: Vec<u8> = Vec::new();
    let _ = m.encode(&mut bytes);
    let (back, consumed) = ParticipantMap::decode_map(&bytes, 0).unwrap();
    assert_eq!(consumed, bytes.len());
    assert_eq!(back, m);
}

#[test]
fn quorum_boundary_roster_four() {
    // roster of four: the two-thirds ceiling is 3, and notarization happens
    // exactly when the third distinct voter arrives
    let mut v = Validator::new(4, 44, 45);
    for key in [1u64, 2, 3, 4] {
        assert!(v.add_participant(Participant::new(key, 100 + key, 0)));
    }
    assert!(v.add_block(10, 1, None));
    v.receive_vote(&vote(1, 10, 1)).unwrap();
    assert!(!v.blocks[0].sm.notarized);
    v.receive_vote(&vote(2, 10, 1)).unwrap();
    assert!(!v.blocks[0].sm.notarized);
    v.receive_vote(&vote(3, 10, 1)).unwrap();
    assert!(v.blocks[0].sm.notarized);
}
