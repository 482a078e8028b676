use oracle_relay::contract::Oracle;
use oracle_relay::errors::ContractError;
use oracle_relay::receptacle::Receptacle;

fn admin() -> Vec<u8> {
    b"admin".to_vec()
}

fn oracle_addr() -> Vec<u8> {
    b"oracle-self".to_vec()
}

fn payload(recipient: &[u8], token: &[u8], amount: u64) -> Vec<u8> {
    let mut p = vec![0u8; 312];
    p[159] = recipient.len() as u8;
    p[160..160 + recipient.len()].copy_from_slice(recipient);
    p[255] = token.len() as u8;
    p[256..256 + token.len()].copy_from_slice(token);
    // big-endian amount in the low bytes of the 112..128 window
    let be = amount.to_be_bytes();
    p[120..128].copy_from_slice(&be);
    p
}

fn oracle_with_operators(ops: &[&[u8]]) -> Oracle {
    let mut o = Oracle::new();
    o.initialize(&admin(), &oracle_addr()).unwrap();
    for op in ops {
        o.setup_new_node(&admin(), &op.to_vec()).unwrap();
    }
    o
}

#[test]
fn submit_then_fetch_returns_the_decoded_fields() {
    let mut o = oracle_with_operators(&[b"op1"]);
    let p = payload(b"alice", b"tok", 900);
    let tx_id: Vec<u8> = vec![1];
    o.submit_transfer(&b"op1".to_vec(), tx_id.clone(), 5, b"sender".to_vec(), &p)
        .unwrap();
    let fields = o.fetch_transfer(&b"op1".to_vec(), &tx_id).unwrap();
    assert_eq!(fields.len(), 6);
    assert_eq!(fields[0], tx_id);
    assert_eq!(fields[1], vec![5, 0, 0, 0]);
    assert_eq!(fields[2], b"sender".to_vec());
    // recipient field: prefix byte then the 56-byte window
    assert_eq!(fields[3][0], 5);
    assert_eq!(&fields[3][1..6], b"alice");
    assert_eq!(fields[3].len(), 57);
    assert_eq!(fields[4][0], 3);
    assert_eq!(&fields[4][1..4], b"tok");
    // amount: 128 bits little-endian
    let mut amount_bytes = [0u8; 16];
    amount_bytes[0] = 0x84;
    amount_bytes[1] = 0x03;
    assert_eq!(fields[5], amount_bytes.to_vec());
}

#[test]
fn fetching_an_unknown_id_yields_an_empty_answer() {
    let o = oracle_with_operators(&[b"op1"]);
    let fields = o.fetch_transfer(&b"op1".to_vec(), &vec![9]).unwrap();
    assert!(fields.is_empty());
    assert_eq!(
        o.fetch_transfer(&b"nobody".to_vec(), &vec![9]),
        Err(ContractError::ReceptacleNotFound)
    );
}

#[test]
fn submitting_from_an_unregistered_operator_is_rejected() {
    let mut o = oracle_with_operators(&[b"op1"]);
    let p = payload(b"alice", b"tok", 1);
    assert_eq!(
        o.submit_transfer(&b"intruder".to_vec(), vec![1], 5, b"s".to_vec(), &p),
        Err(ContractError::OperatorNotFound)
    );
}

#[test]
fn consensus_settles_matching_reports_and_discards_the_id() {
    // end to end: three operators, byte-identical reports for one id
    let ops: [&[u8]; 3] = [b"op1", b"op2", b"op3"];
    let mut o = oracle_with_operators(&ops);
    assert_eq!(o.get_consensus_threshold(), 3);
    let p = payload(b"alice", b"tok", 900);
    let tx_id: Vec<u8> = vec![1];
    for op in &ops {
        o.submit_transfer(&op.to_vec(), tx_id.clone(), 5, b"sender".to_vec(), &p)
            .unwrap();
    }
    assert!(o.get_upkeep_required());
    let settlements = o.perform_upkeep();
    assert_eq!(settlements.len(), 1);
    assert_eq!(settlements[0].recipient[0], 5);
    assert_eq!(&settlements[0].recipient[1..6], b"alice");
    assert_eq!(settlements[0].token[0], 3);
    assert_eq!(&settlements[0].token[1..4], b"tok");
    assert_eq!(settlements[0].amount, 900);
    for op in &ops {
        assert!(o.list_pending_ids(&op.to_vec()).unwrap().is_empty());
    }
    assert!(!o.get_upkeep_required());
}

#[test]
fn a_divergent_report_splits_the_vote_and_blocks_settlement() {
    // two byte-identical reports and one divergent one: counts {2, 1},
    // threshold 3 unmet, no settlement, and the round's tallies are cleared
    let ops: [&[u8]; 3] = [b"op1", b"op2", b"op3"];
    let mut o = oracle_with_operators(&ops);
    let good = payload(b"alice", b"tok", 900);
    let divergent = payload(b"alice", b"tok", 901);
    let tx_id: Vec<u8> = vec![1];
    o.submit_transfer(&b"op1".to_vec(), tx_id.clone(), 5, b"s".to_vec(), &good)
        .unwrap();
    o.submit_transfer(&b"op2".to_vec(), tx_id.clone(), 5, b"s".to_vec(), &good)
        .unwrap();
    o.submit_transfer(&b"op3".to_vec(), tx_id.clone(), 5, b"s".to_vec(), &divergent)
        .unwrap();
    let settlements = o.perform_upkeep();
    assert!(settlements.is_empty());
    // the id stays pending everywhere
    for op in &ops {
        assert_eq!(o.list_pending_ids(&op.to_vec()).unwrap(), vec![tx_id.clone()]);
    }
    // were the tallies not cleared after the round, the repeated votes
    // (2 + 2 for the majority key) would now reach the threshold of 3
    let settlements = o.perform_upkeep();
    assert!(settlements.is_empty());
}

#[test]
fn one_upkeep_pass_processes_at_most_five_ids() {
    // a single operator: threshold 1, so every pending id settles at once
    let mut o = oracle_with_operators(&[b"solo"]);
    for n in 0..7u8 {
        let p = payload(b"alice", b"tok", 100 + n as u64);
        o.submit_transfer(&b"solo".to_vec(), vec![n], 5, b"s".to_vec(), &p)
            .unwrap();
    }
    let settlements = o.perform_upkeep();
    assert_eq!(settlements.len(), 5);
    let remaining = o.list_pending_ids(&b"solo".to_vec()).unwrap();
    assert_eq!(remaining, vec![vec![5u8], vec![6u8]]);
    assert!(o.get_upkeep_required());
    let settlements = o.perform_upkeep();
    assert_eq!(settlements.len(), 2);
    assert_eq!(settlements[0].amount, 105);
    assert_eq!(settlements[1].amount, 106);
    assert!(o.list_pending_ids(&b"solo".to_vec()).unwrap().is_empty());
    assert!(!o.get_upkeep_required());
}

#[test]
fn upkeep_with_nothing_pending_does_nothing() {
    let mut o = oracle_with_operators(&[b"op1", b"op2"]);
    assert!(!o.get_upkeep_required());
    let settlements = o.perform_upkeep();
    assert!(settlements.is_empty());
}

#[test]
fn partial_votes_persist_across_rounds_only_until_cleared() {
    // two operators: only one reports, so the id never reaches quorum, and
    // because each round clears its keys, repeating the pass cannot settle
    let mut o = oracle_with_operators(&[b"op1", b"op2"]);
    let p = payload(b"alice", b"tok", 900);
    o.submit_transfer(&b"op1".to_vec(), vec![1], 5, b"s".to_vec(), &p)
        .unwrap();
    for _ in 0..3 {
        let settlements = o.perform_upkeep();
        assert!(settlements.is_empty());
    }
    assert_eq!(
        o.list_pending_ids(&b"op1".to_vec()).unwrap(),
        vec![vec![1u8]]
    );
}

#[test]
fn receptacle_bindings_and_payer_are_operator_controlled() {
    let mut r = Receptacle::new();
    assert_eq!(r.initialize(&b"oracle".to_vec(), &b"op".to_vec()), Ok(()));
    assert_eq!(
        r.initialize(&b"oracle".to_vec(), &b"op2".to_vec()),
        Err(ContractError::AlreadyInitialized)
    );
    assert_eq!(r.get_payer(), b"op".to_vec());
    r.set_payer(&b"op".to_vec(), &b"payer".to_vec());
    assert_eq!(r.get_payer(), b"payer".to_vec());
    r.set_operator(&b"op".to_vec(), &b"op2".to_vec());
    r.set_payer(&b"op2".to_vec(), &b"payer2".to_vec());
    assert_eq!(r.get_payer(), b"payer2".to_vec());
}

#[test]
fn receptacle_stores_and_discards_by_id() {
    let mut r = Receptacle::new();
    r.initialize(&b"oracle".to_vec(), &b"op".to_vec()).unwrap();
    let p = payload(b"alice", b"tok", 7);
    r.commit_transfer(&b"op".to_vec(), vec![1], 9, b"s".to_vec(), &p);
    r.commit_transfer(&b"op".to_vec(), vec![2], 9, b"s".to_vec(), &p);
    assert_eq!(r.get_transfer_id_list(), vec![vec![1u8], vec![2u8]]);
    assert_eq!(r.get_transfer(&vec![1]).len(), 6);
    r.remove_transfer(&b"oracle".to_vec(), &vec![1]);
    assert_eq!(r.get_transfer_id_list(), vec![vec![2u8]]);
    assert!(r.get_transfer(&vec![1]).is_empty());
    // discarding an absent id is a harmless no-op
    r.remove_transfer(&b"oracle".to_vec(), &vec![9]);
    assert_eq!(r.get_transfer_id_list(), vec![vec![2u8]]);
}

#[test]
fn resubmission_overwrites_in_place_but_appends_to_the_index() {
    let mut r = Receptacle::new();
    r.initialize(&b"oracle".to_vec(), &b"op".to_vec()).unwrap();
    let p1 = payload(b"alice", b"tok", 7);
    let p2 = payload(b"bob", b"tok", 8);
    r.commit_transfer(&b"op".to_vec(), vec![1], 9, b"s".to_vec(), &p1);
    r.commit_transfer(&b"op".to_vec(), vec![1], 9, b"s".to_vec(), &p2);
    // the record is overwritten, the index holds the id twice
    assert_eq!(r.get_transfer_id_list(), vec![vec![1u8], vec![1u8]]);
    let fields = r.get_transfer(&vec![1]);
    assert_eq!(&fields[3][1..4], b"bob");
}
