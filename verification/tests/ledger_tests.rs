use private_token_client::{
    bytes32_to_hex, compute_commitment, compute_nullifier, create_account, derive_address, mint,
    parse_store, render_store, transfer, ClientError, Commitment, LocalChain, StateManager,
};

fn note(commitment: &str, address: &str, balance: u128, nonce: u64, secret: &str, spent: bool)
    -> Commitment {
    Commitment {
        commitment: commitment.to_string(),
        address: address.to_string(),
        balance,
        nonce,
        secret: secret.to_string(),
        spent,
    }
}

#[test]
fn test_add_and_get_commitment() {
    let mut manager = StateManager::new();

    let commitment = note("0x1234", "0xabcd", 100, 1, "0xsecret", false);

    manager.add_commitment(commitment.clone());

    let retrieved = manager.get_commitment("0x1234").unwrap();
    assert_eq!(retrieved.balance, 100);
}

#[test]
fn test_balance_calculation() {
    let mut manager = StateManager::new();

    let address = "0xabcd".to_string();

    manager.add_commitment(note("0x1", &address, 100, 1, "0xsecret", false));
    manager.add_commitment(note("0x2", &address, 50, 2, "0xsecret", false));

    assert_eq!(manager.get_balance(&address), 150);
}

#[test]
fn test_mark_spent() {
    let mut manager = StateManager::new();

    let address = "0xabcd".to_string();

    manager.add_commitment(note("0x1", &address, 100, 1, "0xsecret", false));

    assert_eq!(manager.get_balance(&address), 100);

    manager.mark_spent("0x1").unwrap();

    assert_eq!(manager.get_balance(&address), 0);
}

#[test]
fn test_mark_spent_unknown_commitment() {
    let mut manager = StateManager::new();
    let r = manager.mark_spent("0x404");
    assert!(matches!(r, Err(ClientError::CommitmentNotFound(h)) if h == "0x404"));
}

#[test]
fn test_mark_spent_idempotent_in_effect() {
    let mut manager = StateManager::new();
    manager.add_commitment(note("0x1", "0xabcd", 10, 1, "", false));
    manager.mark_spent("0x1").unwrap();
    // Marking an already spent note again still succeeds.
    manager.mark_spent("0x1").unwrap();
    assert!(manager.get_commitment("0x1").unwrap().spent);
}

#[test]
fn test_add_commitment_replaces_equal_key() {
    let mut manager = StateManager::new();
    manager.add_commitment(note("0x1", "0xabcd", 10, 1, "", false));
    manager.add_commitment(note("0x1", "0xabcd", 25, 2, "", false));
    assert_eq!(manager.get_commitment("0x1").unwrap().balance, 25);
    assert_eq!(manager.get_balance("0xabcd"), 25);
}

#[test]
fn test_no_double_spend_selection() {
    let mut manager = StateManager::new();
    let address = "0xaa".to_string();
    manager.add_commitment(note("0xc1", &address, 100, 1, "", false));

    let picked = manager.find_spendable_commitment(&address, 50).unwrap();
    assert_eq!(picked.commitment, "0xc1");

    manager.mark_spent("0xc1").unwrap();

    // After the spend the selector never returns that commitment again,
    // and the balance excludes it.
    assert!(manager.find_spendable_commitment(&address, 50).is_none());
    assert!(manager.find_spendable_commitment(&address, 1).is_none());
    assert_eq!(manager.get_balance(&address), 0);
}

#[test]
fn test_find_spendable_first_fit_no_combination() {
    let mut manager = StateManager::new();
    let address = "0xaa".to_string();
    manager.add_commitment(note("0xc1", &address, 30, 1, "", false));
    manager.add_commitment(note("0xc2", &address, 40, 2, "", false));

    // First-fit in store order.
    let picked = manager.find_spendable_commitment(&address, 20).unwrap();
    assert_eq!(picked.commitment, "0xc1");

    // 30 + 40 would cover 60, but no combination is attempted.
    assert!(manager.find_spendable_commitment(&address, 60).is_none());
}

#[test]
fn test_insufficient_funds_leaves_state_untouched() {
    let mut store = StateManager::new();
    let secret = [9u8; 32];
    let sender = derive_address(&secret);
    let recipient = derive_address(&[7u8; 32]);
    let sender_hex = bytes32_to_hex(&sender);

    mint(&mut store, &sender, 50, 1);
    let before_doc = render_store(&store);
    let before_balance = store.get_balance(&sender_hex);

    let r = transfer(&mut store, &secret, &sender, &recipient, 100);
    assert!(matches!(
        r,
        Err(ClientError::InsufficientBalance { have: 50, need: 100 })
    ));

    // The note set and balances are unchanged.
    assert_eq!(render_store(&store), before_doc);
    assert_eq!(store.get_balance(&sender_hex), before_balance);
    assert_eq!(store.get_unspent_commitments(&sender_hex).len(), 1);
}

#[test]
fn test_mint_transfer_scenario() {
    // Mint 100 to A under nonce 5, then transfer 40 from A to B.
    let mut store = StateManager::new();
    let secret_a = [1u8; 32];
    let a = derive_address(&secret_a);
    let b = derive_address(&[2u8; 32]);
    let a_hex = bytes32_to_hex(&a);
    let b_hex = bytes32_to_hex(&b);

    let n1 = mint(&mut store, &a, 100, 5);
    assert_eq!(n1.address, a_hex);
    assert_eq!(n1.balance, 100);
    assert_eq!(n1.nonce, 5);
    assert!(!n1.spent);
    assert_eq!(n1.commitment, bytes32_to_hex(&compute_commitment(&a, 100, 5)));
    assert_eq!(store.get_balance(&a_hex), 100);

    let outcome = transfer(&mut store, &secret_a, &a, &b, 40).unwrap();

    // N1 is spent; the change note N2{A, 60, 6} and the recipient note
    // N3{B, 40, 0} appear.
    assert!(store.get_commitment(&n1.commitment).unwrap().spent);
    assert_eq!(outcome.spent_commitment, n1.commitment);

    let n2 = outcome.change.expect("change note");
    assert_eq!(n2.address, a_hex);
    assert_eq!(n2.balance, 60);
    assert_eq!(n2.nonce, 6);
    assert!(!n2.spent);
    assert_eq!(n2.commitment, bytes32_to_hex(&compute_commitment(&a, 60, 6)));

    let n3 = outcome.recipient;
    assert_eq!(n3.address, b_hex);
    assert_eq!(n3.balance, 40);
    assert_eq!(n3.nonce, 0);
    assert!(!n3.spent);
    assert_eq!(n3.commitment, bytes32_to_hex(&compute_commitment(&b, 40, 0)));

    assert_eq!(store.get_balance(&a_hex), 60);
    assert_eq!(store.get_balance(&b_hex), 40);
}

#[test]
fn test_transfer_exact_balance_no_change_note() {
    let mut store = StateManager::new();
    let secret = [4u8; 32];
    let sender = derive_address(&secret);
    let recipient = derive_address(&[5u8; 32]);

    mint(&mut store, &sender, 40, 1);
    let outcome = transfer(&mut store, &secret, &sender, &recipient, 40).unwrap();
    assert!(outcome.change.is_none());
    assert_eq!(store.get_balance(&bytes32_to_hex(&sender)), 0);
    assert_eq!(store.get_balance(&bytes32_to_hex(&recipient)), 40);
}

#[test]
fn test_create_account_records_secret() {
    let mut store = StateManager::new();
    let (address, secret) = create_account(&mut store);
    assert_eq!(address, derive_address(&secret));
    let found = store.get_secret(&bytes32_to_hex(&address)).unwrap();
    assert_eq!(found, &bytes32_to_hex(&secret));

    let accounts = store.list_accounts();
    assert_eq!(accounts.len(), 1);
    assert_eq!(accounts[0].0, &bytes32_to_hex(&address));
    assert_eq!(accounts[0].1, 0);
}

#[test]
fn test_persistence_round_trip() {
    // Serialize a store with notes and accounts, read it back, and check
    // the fields are identical, spent flags and secrets included.
    let mut store = StateManager::new();
    store.add_account("0xاا-address".to_string(), "секрет".to_string());
    store.add_account("0xplain".to_string(), "0xsecret2".to_string());
    store.add_commitment(note("0x1234", "0xabcd", 100, 1, "0xsecret", false));
    store.add_commitment(note("0x9999", "0xاا-address", u128::MAX, u64::MAX, "", true));

    let doc = render_store(&store);
    let restored = parse_store(&doc).unwrap();

    let a = restored.get_commitment("0x1234").unwrap();
    assert_eq!(a.address, "0xabcd");
    assert_eq!(a.balance, 100);
    assert_eq!(a.nonce, 1);
    assert_eq!(a.secret, "0xsecret");
    assert!(!a.spent);

    let b = restored.get_commitment("0x9999").unwrap();
    assert_eq!(b.address, "0xاا-address");
    assert_eq!(b.balance, u128::MAX);
    assert_eq!(b.nonce, u64::MAX);
    assert_eq!(b.secret, "");
    assert!(b.spent);

    assert_eq!(restored.get_secret("0xاا-address").unwrap(), "секрет");
    assert_eq!(restored.get_secret("0xplain").unwrap(), "0xsecret2");
    assert_eq!(restored.get_balance("0xabcd"), 100);
    assert_eq!(restored.get_balance("0xاا-address"), 0);

    // Rendering the restored store reproduces the document byte for byte.
    assert_eq!(render_store(&restored), doc);
}

#[test]
fn test_persistence_empty_store() {
    let store = StateManager::new();
    let doc = render_store(&store);
    let restored = parse_store(&doc).unwrap();
    assert_eq!(restored.list_accounts().len(), 0);
    assert!(restored.get_commitment("0x0").is_none());
}

#[test]
fn test_parse_store_rejects_malformed_document() {
    assert!(matches!(parse_store("zz"), Err(ClientError::StateError(_))));
    assert!(matches!(parse_store("0123"), Err(ClientError::StateError(_))));
    // Trailing characters after a well-formed document are rejected.
    let doc = render_store(&StateManager::new());
    let with_tail = format!("{}00", doc);
    assert!(matches!(parse_store(&with_tail), Err(ClientError::StateError(_))));
}

#[test]
fn test_transfer_unknown_sender_insufficient() {
    let mut store = StateManager::new();
    let secret = [8u8; 32];
    let sender = derive_address(&secret);
    let recipient = derive_address(&[3u8; 32]);
    let r = transfer(&mut store, &secret, &sender, &recipient, 1);
    assert!(matches!(
        r,
        Err(ClientError::InsufficientBalance { have: 0, need: 1 })
    ));
}

#[test]
fn test_local_chain_records_and_queries() {
    let mut chain = LocalChain::new();
    let secret = [6u8; 32];
    let commitment = compute_commitment(&derive_address(&secret), 10, 1);
    let nullifier = compute_nullifier(&secret, 1);

    assert!(!chain.has_commitment(&commitment));
    assert!(!chain.is_nullifier_used(&nullifier));
    assert_eq!(chain.commitment_count(), 0);

    chain.record_commitment(&commitment);
    chain.record_nullifier(&nullifier);

    assert!(chain.has_commitment(&commitment));
    assert!(chain.is_nullifier_used(&nullifier));
    assert_eq!(chain.commitment_count(), 1);

    // A second spend of the same note derives the same nullifier and is
    // detectable.
    let again = compute_nullifier(&secret, 1);
    assert!(chain.is_nullifier_used(&again));
    assert!(!chain.is_nullifier_used(&compute_nullifier(&secret, 2)));
}
