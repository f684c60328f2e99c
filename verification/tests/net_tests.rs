use darkfi_core::consensus::{Participant, Vote};
use darkfi_core::dht::{KeyRequest, KeyResponse, LookupRequest};
use darkfi_core::error::Error;
use darkfi_core::net_name::NetworkName;
use darkfi_core::p2p::{P2p, P2pState, Settings};
use darkfi_core::protocol_vote::handle_vote;
use darkfi_core::rpc::{rpc_method_reply, RpcReply};
use darkfi_core::serial::{deserialize, serialize};
use darkfi_core::tasks::{record_commit, EncryptedTask};
use darkfi_core::validator::Validator;

fn settings() -> Settings {
    Settings {
        seeds: vec![900],
        peers: vec![],
        external_addr: vec![77],
        outbound_connections: 4,
        inbound_connections: 8,
    }
}

#[test]
fn pending_connected_exclusivity() {
    let mut p = P2p::new(settings());
    assert_eq!(p.state, P2pState::Open);

    // a reservation succeeds once; re-adding a pending address returns false
    assert!(p.add_pending(5));
    assert!(!p.add_pending(5));
    assert_eq!(p.pending, vec![5u64]);

    // success moves the address from pending to connected
    assert!(p.store(5));
    assert!(p.pending.is_empty());
    assert!(p.channel_exists(5));
    assert_eq!(p.connections_count(), 1);

    // a connected address cannot be reserved again
    assert!(!p.add_pending(5));

    // storing an already-connected address is not a new connection
    assert!(!p.store(5));
    assert_eq!(p.connections_count(), 1);

    // removal frees the address for a new attempt
    p.remove(5);
    assert!(!p.channel_exists(5));
    assert!(p.add_pending(5));
    p.remove_pending(5);
    assert!(p.pending.is_empty());
}

#[test]
fn broadcast_exclusion() {
    let mut p = P2p::new(settings());
    for addr in [1u64, 2, 3, 4] {
        assert!(p.add_pending(addr));
        assert!(p.store(addr));
    }
    assert_eq!(p.broadcast_targets(), vec![1u64, 2, 3, 4]);
    // the excluded peer is skipped, everyone else is reached
    let targets = p.broadcast_targets_with_exclude(&vec![3u64]);
    assert_eq!(targets, vec![1u64, 2, 4]);
    let all = p.broadcast_targets_with_exclude(&vec![]);
    assert_eq!(all, vec![1u64, 2, 3, 4]);
}

#[test]
fn outbound_wait_policy() {
    // a node with no seeds and no peers, or with zero outbound slots, never
    // waits for outbound connections
    let mut no_seeds = settings();
    no_seeds.seeds = vec![];
    let p = P2p::new(no_seeds);
    assert!(!p.needs_outbound_wait());
    assert!(p.wait_for_outbound_addrs().is_empty());

    let mut no_slots = settings();
    no_slots.outbound_connections = 0;
    let p = P2p::new(no_slots);
    assert!(!p.needs_outbound_wait());

    // with seeds and slots, every known host but the node's own inbound
    // addresses is awaited
    let mut p = P2p::new(settings());
    assert!(p.store_host(41));
    assert!(p.store_host(77));
    assert!(p.store_host(42));
    assert!(!p.store_host(41));
    assert!(p.needs_outbound_wait());
    assert_eq!(p.wait_for_outbound_addrs(), vec![41u64, 42]);
}

#[test]
fn p2p_lifecycle_names() {
    let mut p = P2p::new(settings());
    assert_eq!(p.state.as_str(), "open");
    p.start_seeding();
    assert_eq!(p.state.as_str(), "start");
    p.finish_seeding();
    assert_eq!(p.state.as_str(), "started");
    p.run();
    assert_eq!(p.state.as_str(), "run");
}

#[test]
fn handle_vote_actions() {
    let mut v = Validator::new(3, 33, 34);
    assert!(v.add_participant(Participant::new(1, 101, 0)));
    assert!(v.add_participant(Participant::new(2, 102, 0)));
    assert!(v.add_participant(Participant::new(3, 103, 0)));
    assert!(v.add_block(10, 1, None));

    // the first vote does not notarize: nothing is echoed
    let w1 = Vote::new(1, 10, 1, 901, 801);
    let a1 = handle_vote(&mut v, &w1, 501).unwrap();
    assert_eq!(a1.rebroadcast, None);
    assert_eq!(a1.exclude, 501);
    assert!(a1.announce.is_empty());

    // the second vote notarizes and the local node votes: the vote is
    // echoed, excluding its sender
    let w2 = Vote::new(2, 10, 1, 902, 802);
    let a2 = handle_vote(&mut v, &w2, 502).unwrap();
    assert_eq!(a2.rebroadcast, Some(w2));
    assert_eq!(a2.exclude, 502);
    assert!(a2.announce.is_empty());

    // a rejected vote produces the reason and no actions
    let bad = Vote::new(9, 10, 1, 909, 809);
    assert!(handle_vote(&mut v, &bad, 503).is_err());
}

#[test]
fn network_name_parsing() {
    assert_eq!(NetworkName::from_str("drk"), Ok(NetworkName::DarkFi));
    assert_eq!(NetworkName::from_str("DARKFI"), Ok(NetworkName::DarkFi));
    assert_eq!(NetworkName::from_str("sol"), Ok(NetworkName::Solana));
    assert_eq!(NetworkName::from_str("Solana"), Ok(NetworkName::Solana));
    assert_eq!(NetworkName::from_str("btc"), Ok(NetworkName::Bitcoin));
    assert_eq!(NetworkName::from_str("Bitcoin"), Ok(NetworkName::Bitcoin));
    assert_eq!(NetworkName::from_str("eth"), Ok(NetworkName::Ethereum));
    assert_eq!(NetworkName::from_str("ethereum"), Ok(NetworkName::Ethereum));
    assert_eq!(NetworkName::from_str("doge"), Err(Error::UnsupportedCoinNetwork));
    assert_eq!(NetworkName::DarkFi.as_str(), "DarkFi");
}

#[test]
fn network_name_codec() {
    let bytes = serialize(&NetworkName::DarkFi);
    assert_eq!(bytes, vec![6u8, 0x44, 0x61, 0x72, 0x6b, 0x46, 0x69]);
    assert_eq!(deserialize::<NetworkName>(&bytes).unwrap(), NetworkName::DarkFi);
    assert_eq!(
        deserialize::<NetworkName>(&serialize(&NetworkName::Ethereum)).unwrap(),
        NetworkName::Ethereum
    );
    assert_eq!(deserialize::<NetworkName>(&[3u8, 0x64, 0x6f, 0x67]), Err(Error::UnsupportedCoinNetwork));
}

#[test]
fn dht_message_ids() {
    let from = [1u8; 32];
    let to = [2u8; 32];
    let key = [3u8; 32];
    let req = KeyRequest::new(from, to, key);
    assert_eq!(req.from, from);
    assert_eq!(req.to, to);
    assert_eq!(req.key, key);

    let resp = KeyResponse::new(to, from, key, vec![9u8, 9]);
    assert_eq!(resp.from, to);
    assert_eq!(resp.to, from);
    assert_eq!(resp.value, vec![9u8, 9]);

    let lookup = LookupRequest::new(from, key, 0);
    assert_eq!(lookup.daemon, from);
    assert_eq!(lookup.req_type, 0);
}

#[test]
fn encrypted_task_codec() {
    let t = EncryptedTask::new("ws".to_string(), vec![1u8, 2], vec![3u8, 4, 5]);
    let bytes = serialize(&t);
    assert_eq!(bytes, vec![2u8, 0x77, 0x73, 2, 1, 2, 3, 3, 4, 5]);
    let back = deserialize::<EncryptedTask>(&bytes).unwrap();
    assert_eq!(back.workspace, "ws");
    assert_eq!(back.nonce, vec![1u8, 2]);
    assert_eq!(back.payload, vec![3u8, 4, 5]);
}

#[test]
fn commit_log_deduplicates() {
    let mut commits: Vec<String> = Vec::new();
    assert!(record_commit(&mut commits, &"a1".to_string()));
    assert!(record_commit(&mut commits, &"b2".to_string()));
    assert!(!record_commit(&mut commits, &"a1".to_string()));
    assert_eq!(commits, vec!["a1".to_string(), "b2".to_string()]);
}

#[test]
fn rpc_replies() {
    assert_eq!(rpc_method_reply("say_hello"), RpcReply::Text("Hello World!"));
    assert_eq!(rpc_method_reply("test_path"), RpcReply::Text("TEST PATH!"));
    assert_eq!(rpc_method_reply("get_cash_key"), RpcReply::Text("Getting cashier key..."));
    assert_eq!(rpc_method_reply("new_wallet"), RpcReply::Text("Attempted wallet generation"));
    assert_eq!(
        rpc_method_reply("new_cashier_wallet"),
        RpcReply::Text("Attempted wallet generation")
    );
    assert_eq!(rpc_method_reply("get_info"), RpcReply::Null);
    assert_eq!(rpc_method_reply("stop"), RpcReply::Null);
    assert_eq!(rpc_method_reply("nonsense"), RpcReply::UnknownMethod);
}
