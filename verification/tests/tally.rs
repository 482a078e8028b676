use oracle_relay::consensus::ConsensusTally;

#[test]
fn empty_batch_yields_no_winner_and_changes_nothing() {
    let mut t = ConsensusTally::new();
    let k: Vec<u8> = vec![1, 2, 3];
    t.write_consensus_count(&k, 4);
    let r = t.threshold_validation(1, &Vec::new());
    assert!(r.is_none());
    assert_eq!(t.read_consensus_count(&k), 4);
}

#[test]
fn quorum_reached_exactly_when_count_crosses_threshold() {
    let mut t = ConsensusTally::new();
    let k: Vec<u8> = vec![9];
    // threshold 2: one vote is not enough, the second qualifies
    let r1 = t.threshold_validation(2, &vec![k.clone()]);
    assert!(r1.is_none());
    assert_eq!(t.read_consensus_count(&k), 1);
    let r2 = t.threshold_validation(2, &vec![k.clone()]);
    assert_eq!(r2, Some(k.clone()));
    assert_eq!(t.read_consensus_count(&k), 2);
}

#[test]
fn counts_persist_across_calls_until_cleared() {
    let mut t = ConsensusTally::new();
    let k: Vec<u8> = vec![5, 5];
    t.threshold_validation(10, &vec![k.clone()]);
    t.threshold_validation(10, &vec![k.clone(), k.clone()]);
    assert_eq!(t.read_consensus_count(&k), 3);
    t.clear_consensus_count(&k);
    assert_eq!(t.read_consensus_count(&k), 0);
}

#[test]
fn first_inserted_key_wins_among_simultaneous_qualifiers() {
    let k1: Vec<u8> = vec![1];
    let k2: Vec<u8> = vec![2];
    // threshold 1: both keys qualify after one vote each; first-occurrence wins
    let mut t = ConsensusTally::new();
    let r = t.threshold_validation(1, &vec![k1.clone(), k2.clone()]);
    assert_eq!(r, Some(k1.clone()));

    let mut t = ConsensusTally::new();
    let r = t.threshold_validation(1, &vec![k2.clone(), k1.clone()]);
    assert_eq!(r, Some(k2.clone()));
}

#[test]
fn duplicate_keys_in_one_batch_vote_separately() {
    let mut t = ConsensusTally::new();
    let k: Vec<u8> = vec![7];
    let other: Vec<u8> = vec![8];
    let r = t.threshold_validation(3, &vec![k.clone(), other.clone(), k.clone()]);
    // k gathered two votes, other one; threshold 3 unmet
    assert!(r.is_none());
    assert_eq!(t.read_consensus_count(&k), 2);
    assert_eq!(t.read_consensus_count(&other), 1);
    // the third identical vote reaches the threshold
    let r = t.threshold_validation(3, &vec![k.clone()]);
    assert_eq!(r, Some(k));
}

#[test]
fn clearing_one_key_leaves_the_rest() {
    let mut t = ConsensusTally::new();
    let a: Vec<u8> = vec![1];
    let b: Vec<u8> = vec![2];
    t.write_consensus_count(&a, 3);
    t.write_consensus_count(&b, 5);
    t.clear_consensus_count(&a);
    assert_eq!(t.read_consensus_count(&a), 0);
    assert_eq!(t.read_consensus_count(&b), 5);
}
