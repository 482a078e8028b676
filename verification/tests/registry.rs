use oracle_relay::contract::Oracle;
use oracle_relay::errors::ContractError;

fn admin() -> Vec<u8> {
    b"admin".to_vec()
}

fn oracle_addr() -> Vec<u8> {
    b"oracle-self".to_vec()
}

fn initialized() -> Oracle {
    let mut o = Oracle::new();
    o.initialize(&admin(), &oracle_addr()).unwrap();
    o
}

#[test]
fn initialize_is_one_time() {
    let mut o = Oracle::new();
    assert_eq!(o.initialize(&admin(), &oracle_addr()), Ok(()));
    assert_eq!(
        o.initialize(&admin(), &oracle_addr()),
        Err(ContractError::AlreadyInitialized)
    );
    assert_eq!(o.get_admin(), admin());
}

#[test]
fn threshold_tracks_operator_count() {
    let mut o = initialized();
    assert_eq!(o.get_consensus_threshold(), 0);
    o.setup_new_node(&admin(), &b"op1".to_vec()).unwrap();
    o.setup_new_node(&admin(), &b"op2".to_vec()).unwrap();
    o.setup_new_node(&admin(), &b"op3".to_vec()).unwrap();
    assert_eq!(o.get_consensus_threshold(), 3);
    o.remove_node(&admin(), &b"op2".to_vec()).unwrap();
    assert_eq!(o.get_consensus_threshold(), 2);
    o.remove_node(&admin(), &b"op1".to_vec()).unwrap();
    o.remove_node(&admin(), &b"op3".to_vec()).unwrap();
    // removing the last operator leaves the threshold at zero, never below
    assert_eq!(o.get_consensus_threshold(), 0);
}

#[test]
fn duplicate_operator_is_rejected() {
    let mut o = initialized();
    o.setup_new_node(&admin(), &b"op1".to_vec()).unwrap();
    assert_eq!(
        o.setup_new_node(&admin(), &b"op1".to_vec()),
        Err(ContractError::AlreadyRegisteredOperator)
    );
    assert_eq!(o.get_consensus_threshold(), 1);
}

#[test]
fn removing_an_unknown_operator_is_rejected() {
    let mut o = initialized();
    o.setup_new_node(&admin(), &b"op1".to_vec()).unwrap();
    assert_eq!(
        o.remove_node(&admin(), &b"ghostly".to_vec()),
        Err(ContractError::OperatorNotFound)
    );
    assert_eq!(o.get_consensus_threshold(), 1);
}

#[test]
fn receptacle_addresses_are_looked_up_by_operator() {
    let mut o = initialized();
    let a1 = o.setup_new_node(&admin(), &b"op1".to_vec()).unwrap();
    let a2 = o.setup_new_node(&admin(), &b"op2".to_vec()).unwrap();
    assert_ne!(a1, a2);
    assert_eq!(o.get_receptacle_address(&b"op1".to_vec()), Ok(a1));
    assert_eq!(o.get_receptacle_address(&b"op2".to_vec()), Ok(a2));
    assert_eq!(
        o.get_receptacle_address(&b"op9".to_vec()),
        Err(ContractError::ReceptacleNotFound)
    );
    let list = o.get_receptacle_list();
    assert_eq!(list.len(), 2);
    assert_eq!(list[0].operator, b"op1".to_vec());
    assert_eq!(list[0].receptacle_address, a1);
    assert_eq!(list[1].operator, b"op2".to_vec());
}

#[test]
fn chain_registry_rejects_duplicates_and_unknown_removals() {
    let mut o = initialized();
    assert_eq!(
        o.add_new_chain(&admin(), b"eth".to_vec(), 1, &b"0xoracle".to_vec()),
        Ok(())
    );
    assert_eq!(
        o.add_new_chain(&admin(), b"eth-again".to_vec(), 1, &b"0xother".to_vec()),
        Err(ContractError::ChainAlreadyAdded)
    );
    assert_eq!(
        o.remove_chain(&admin(), 2),
        Err(ContractError::ChainNotFound)
    );
    let chains = o.get_all_supported_chains();
    assert_eq!(chains.len(), 1);
    assert_eq!(chains[0].chain_name, b"eth".to_vec());
    assert_eq!(chains[0].chain_id, 1);
    assert_eq!(chains[0].oracle_address, b"0xoracle".to_vec());
    assert_eq!(o.remove_chain(&admin(), 1), Ok(()));
    assert!(o.get_all_supported_chains().is_empty());
}

#[test]
fn token_destination_mapping_checks_each_precondition_in_order() {
    let mut o = initialized();
    let token = b"tokenA".to_vec();
    // mapping onto an unregistered chain is rejected
    assert_eq!(
        o.add_token_destination_map(&admin(), &token, 1, b"destA".to_vec()),
        Err(ContractError::ChainNotFound)
    );
    o.add_new_chain(&admin(), b"eth".to_vec(), 1, &b"0xoracle".to_vec())
        .unwrap();
    o.add_token_destination_map(&admin(), &token, 1, b"destA".to_vec())
        .unwrap();

    let d = o.get_destination_chain_token(&token, 1).unwrap();
    assert_eq!(d.chain_id, 1);
    assert_eq!(d.destination_token, b"destA".to_vec());

    // each failing check yields its own error kind
    assert_eq!(
        o.get_destination_chain_token(&b"tokenB".to_vec(), 1),
        Err(ContractError::TokenNotSupported)
    );
    assert_eq!(
        o.get_destination_chain_token(&token, 2),
        Err(ContractError::ChainNotFound)
    );
    o.add_new_chain(&admin(), b"base".to_vec(), 3, &b"0xbase".to_vec())
        .unwrap();
    assert_eq!(
        o.get_destination_chain_token(&token, 3),
        Err(ContractError::TokenChainMappingNotFound)
    );

    assert_eq!(
        o.remove_token_destination_map(&admin(), &b"tokenB".to_vec(), 1),
        Err(ContractError::TokenNotSupported)
    );
    assert_eq!(
        o.remove_token_destination_map(&admin(), &token, 2),
        Err(ContractError::ChainNotFound)
    );
    assert_eq!(
        o.remove_token_destination_map(&admin(), &token, 3),
        Err(ContractError::TokenChainMappingNotFound)
    );
    assert_eq!(o.remove_token_destination_map(&admin(), &token, 1), Ok(()));
    assert_eq!(
        o.get_destination_chain_list(&token),
        Err(ContractError::TokenNotSupported)
    );
}

#[test]
fn destination_chain_list_keeps_insertion_order() {
    let mut o = initialized();
    let token = b"tokenA".to_vec();
    o.add_new_chain(&admin(), b"eth".to_vec(), 1, &b"0xe".to_vec())
        .unwrap();
    o.add_new_chain(&admin(), b"arb".to_vec(), 2, &b"0xa".to_vec())
        .unwrap();
    o.add_token_destination_map(&admin(), &token, 1, b"d1".to_vec())
        .unwrap();
    o.add_token_destination_map(&admin(), &token, 2, b"d2".to_vec())
        .unwrap();
    let list = o.get_destination_chain_list(&token).unwrap();
    assert_eq!(list.len(), 2);
    assert_eq!(list[0].chain_id, 1);
    assert_eq!(list[0].destination_token, b"d1".to_vec());
    assert_eq!(list[1].chain_id, 2);
    assert_eq!(list[1].destination_token, b"d2".to_vec());
}

#[test]
fn outgoing_transfer_requires_full_configuration() {
    let mut o = initialized();
    let user = b"user1".to_vec();
    let token = b"tokenA".to_vec();
    let recipient = b"0xrecipient".to_vec();
    assert!(matches!(
        o.initiate_outgoing_transfer(&user, 1, &recipient, &token, 500, 42),
        Err(ContractError::BridgeEndpointNotConfigured)
    ));
    o.setup_bridge(&admin(), &b"bridge".to_vec());
    assert!(matches!(
        o.initiate_outgoing_transfer(&user, 1, &recipient, &token, 500, 42),
        Err(ContractError::TokenNotSupported)
    ));
    o.add_new_chain(&admin(), b"eth".to_vec(), 1, &b"0xoracle".to_vec())
        .unwrap();
    o.add_token_destination_map(&admin(), &token, 1, b"destA".to_vec())
        .unwrap();
    assert!(matches!(
        o.initiate_outgoing_transfer(&user, 2, &recipient, &token, 500, 42),
        Err(ContractError::ChainNotFound)
    ));

    let ev = o
        .initiate_outgoing_transfer(&user, 1, &recipient, &token, 500, 42)
        .unwrap();
    assert_eq!(ev.tx_id, 42);
    assert_eq!(ev.destination_chain_id, 1);
    assert_eq!(ev.destination_oracle_address, b"0xoracle".to_vec());
    assert_eq!(ev.initiating_user, user);
    assert_eq!(ev.data.recipient, recipient);
    assert_eq!(ev.data.token, b"destA".to_vec());
    assert_eq!(ev.data.amount, 500);

    let ev2 = o
        .initiate_rebalancing(&user, 1, &recipient, &token, 700, 43)
        .unwrap();
    assert_eq!(ev2.tx_id, 43);
    assert_eq!(ev2.data.amount, 700);
    assert_eq!(ev2.data.token, b"destA".to_vec());
}
