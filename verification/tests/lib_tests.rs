use serde_json::Value;
use spartan_rust::strmap::ViewClone;
use spartan_rust::block::{block, TxRefusal};
use spartan_rust::blockchain::{blockchain, COINBASE_AMT_ALLOWED, POW_BASE_TARGET};
use spartan_rust::client::{client, txData, BlockRefusal};
use spartan_rust::fakeNet::{fakeNet, NetMessage};
use spartan_rust::miner::miner;
use spartan_rust::strmap::StrMap;
use spartan_rust::transaction::transaction;
use spartan_rust::utils::{
    addressMatchesKey, calcAddress, generateKeypair, hash, sign, signatureCheckable,
    verifySignature,
};

#[test]
fn it_works() {
    let result = 2 + 2;
    assert_eq!(result, 4);
}

fn hex_of(bytes: &[u8]) -> String {
    bytes.iter().map(|b| format!("{:02x}", b)).collect()
}

#[test]
fn hash_of_abc_is_hex_of_sha256_hex() {
    let sha = "ba7816bf8f01cfea414140de5dae2223b00361a396177a9cb410ff61f20015ad";
    let expected = hex_of(sha.as_bytes());
    assert_eq!(hash("abc"), expected);
    assert_eq!(hash("abc").len(), 128);
    assert!(hash("abc").chars().all(|c| c.is_ascii_digit()));
}

#[test]
fn hash_of_empty_string() {
    let sha = "e3b0c44298fc1c149afbf4c8996fb92427ae41e4649b934ca495991b7852b855";
    assert_eq!(hash(""), hex_of(sha.as_bytes()));
}

#[test]
fn keypair_shape() {
    let (priv_key, pub_key) = generateKeypair();
    assert_eq!(priv_key.len(), 30);
    assert!(priv_key.chars().all(|c| c.is_ascii_alphanumeric()));
    assert_eq!(pub_key, format!("{}!", priv_key));
}

#[test]
fn sign_then_verify() {
    let (priv_key, pub_key) = generateKeypair();
    let sig = sign(&priv_key, "hello");
    assert_eq!(sig, format!("{}hello", priv_key));
    assert!(signatureCheckable(&pub_key, "hello", &sig));
    assert!(verifySignature(&pub_key, "hello", &sig));
    assert!(!verifySignature(&pub_key, "hellO", &sig));
    let (_, other_pub) = generateKeypair();
    assert!(!verifySignature(&other_pub, "hello", &sig));
}

#[test]
fn short_signature_cannot_be_checked() {
    assert!(!signatureCheckable("abc!", "m", "short"));
}

#[test]
fn address_is_hash_of_addr_and_key() {
    assert_eq!(calcAddress("key!"), hash("addrkey!"));
    assert!(addressMatchesKey(&hash("addrkey!"), "key!"));
    assert!(!addressMatchesKey("nope", "key!"));
}

fn tx_json(t: &transaction, id: &str) -> String {
    let mut m = serde_json::Map::new();
    m.insert("from".to_string(), Value::String(t.from.clone()));
    m.insert("nonce".to_string(), Value::from(t.nonce));
    m.insert("pub_key".to_string(), Value::String(t.pub_key.clone()));
    m.insert(
        "sig".to_string(),
        match &t.sig {
            Some(s) => Value::String(s.clone()),
            None => Value::Null,
        },
    );
    m.insert("fee".to_string(), Value::from(t.fee));
    let outs: Vec<Value> = t
        .outputs
        .iter()
        .map(|(a, n)| Value::Array(vec![Value::String(a.clone()), Value::from(*n)]))
        .collect();
    m.insert("outputs".to_string(), Value::Array(outs));
    m.insert("data".to_string(), Value::String(t.data.clone()));
    m.insert("id".to_string(), Value::String(id.to_string()));
    serde_json::to_string(&Value::Object(m)).unwrap()
}

#[test]
fn transaction_id_hashes_its_json() {
    let t = transaction::new(
        "alice",
        3,
        "pk!",
        None,
        1,
        vec![("bob".to_string(), 40), ("carol".to_string(), -2)],
        "say \"hi\"\n\t\u{1}\\ é",
    );
    let expected = hash(&format!("TX {}", tx_json(&t, "")));
    assert_eq!(t.id, expected);
    assert_eq!(t.totalOutput(), 39);
}

fn genesis_with(balances: &[(&str, i32)], zeroes: u64, ts: i64) -> blockchain {
    let mut m: StrMap<i32> = StrMap::new();
    for (a, v) in balances {
        m.insert(a.to_string(), *v);
    }
    blockchain::makeGenesisAt(zeroes, 25, 1, 6, Some(m), None, ts)
}

fn block_json(b: &block, id: &str) -> String {
    let mut m = serde_json::Map::new();
    m.insert(
        "prevBlockHash".to_string(),
        match &b.prevBlockHash {
            Some(s) => Value::String(s.clone()),
            None => Value::Null,
        },
    );
    m.insert("target".to_string(), Value::from(b.target));
    let mut bal = serde_json::Map::new();
    for i in 0..b.balances.len() {
        bal.insert(b.balances.key_at(i).clone(), Value::from(*b.balances.val_at(i)));
    }
    m.insert("balances".to_string(), Value::Object(bal));
    let mut nn = serde_json::Map::new();
    for i in 0..b.nextNonce.len() {
        nn.insert(b.nextNonce.key_at(i).clone(), Value::from(*b.nextNonce.val_at(i)));
    }
    m.insert("nextNonce".to_string(), Value::Object(nn));
    let mut txs = serde_json::Map::new();
    for i in 0..b.transactions.len() {
        let t = b.transactions.val_at(i);
        let v: Value = serde_json::from_str(&tx_json(t, &t.id)).unwrap();
        txs.insert(b.transactions.key_at(i).clone(), v);
    }
    m.insert("transactions".to_string(), Value::Object(txs));
    m.insert("chainLength".to_string(), Value::from(b.chainLength));
    m.insert("timestamp".to_string(), Value::from(b.timestamp));
    m.insert(
        "rewardAddr".to_string(),
        match &b.rewardAddr {
            Some(s) => Value::String(s.clone()),
            None => Value::Null,
        },
    );
    m.insert("coinbaseReward".to_string(), Value::from(b.coinbaseReward));
    m.insert("proof".to_string(), Value::from(b.proof));
    m.insert("id".to_string(), Value::String(id.to_string()));
    serde_json::to_string(&Value::Object(m)).unwrap()
}

#[test]
fn genesis_block_shape_and_id() {
    let g = genesis_with(&[("alice", 233), ("bob", 99)], 5, 1700000000);
    assert_eq!(g.powTarget, POW_BASE_TARGET >> 5);
    let b = &g.genesisBlock;
    assert!(b.isGenesisBlock());
    assert_eq!(b.balanceOf("alice"), 233);
    assert_eq!(b.balanceOf("bob"), 99);
    assert_eq!(b.balanceOf("carol"), 0);
    assert_eq!(b.coinbaseReward, COINBASE_AMT_ALLOWED);
    assert_eq!(b.prevBlockHash, None);
    // The id was taken before the balances were set.
    let empty = blockchain::makeGenesisAt(5, 25, 1, 6, None, None, 1700000000);
    assert_eq!(b.id, empty.genesisBlock.id);
    assert_eq!(b.id, hash(&format!("blk {}", block_json(&empty.genesisBlock, ""))));
    assert_eq!(b.serialize(), block_json(b, &b.id));
}

fn signed_tx(from_priv: &str, from_pub: &str, nonce: i32, outputs: Vec<(String, i32)>, fee: i32) -> transaction {
    let mut t = transaction::new(&calcAddress(from_pub), nonce, from_pub, None, fee, outputs, "");
    t.sign(from_priv);
    t
}

#[test]
fn add_transaction_accepts_and_moves_gold() {
    let (ap, apub) = generateKeypair();
    let alice = calcAddress(&apub);
    let g = genesis_with(&[(&alice, 100)], 5, 1);
    let mut b = block::newAt(Some("miner".to_string()), Some(g.genesisBlock), 7, 25, 2);
    let t = signed_tx(&ap, &apub, 0, vec![("bob".to_string(), 40)], 1);
    assert!(t.validSignature());
    assert!(b.addTransaction(&t));
    assert_eq!(b.balanceOf(&alice), 59);
    assert_eq!(b.balanceOf("bob"), 40);
    assert!(b.contains(&t.id));
    assert_eq!(b.totalRewards(), 26);
    // The same transaction again is a duplicate.
    assert!(!b.addTransaction(&t));
    // A replayed nonce and a nonce ahead are refused.
    let t_old = signed_tx(&ap, &apub, 0, vec![("bob".to_string(), 1)], 1);
    assert!(!b.addTransaction(&t_old));
    let t_ahead = signed_tx(&ap, &apub, 5, vec![("bob".to_string(), 1)], 1);
    assert!(!b.addTransaction(&t_ahead));
    // Too much gold.
    let t_big = signed_tx(&ap, &apub, 1, vec![("bob".to_string(), 59)], 1);
    assert!(!b.addTransaction(&t_big));
    let t_next = signed_tx(&ap, &apub, 1, vec![("bob".to_string(), 58)], 1);
    assert!(b.addTransaction(&t_next));
    assert_eq!(b.balanceOf(&alice), 0);
    assert_eq!(b.balanceOf("bob"), 98);
}

#[test]
fn add_transaction_refuses_unsigned_and_forged() {
    let (ap, apub) = generateKeypair();
    let alice = calcAddress(&apub);
    let g = genesis_with(&[(&alice, 100)], 5, 1);
    let mut b = block::newAt(None, Some(g.genesisBlock), 7, 25, 2);
    let unsigned = transaction::new(&alice, 0, &apub, None, 1, vec![], "");
    assert!(!b.addTransaction(&unsigned));
    let (other_priv, _) = generateKeypair();
    let forged = signed_tx(&other_priv, &apub, 0, vec![("bob".to_string(), 1)], 1);
    assert!(!b.addTransaction(&forged));
    assert_eq!(b.balanceOf(&alice), 100);
}

#[test]
fn add_transaction_from_unknown_sender_would_panic() {
    let (ap, apub) = generateKeypair();
    let g = genesis_with(&[], 5, 1);
    let mut b = block::newAt(None, Some(g.genesisBlock), 7, 25, 2);
    let t = signed_tx(&ap, &apub, 0, vec![], 1);
    assert_eq!(b.tryAddTransaction(&t), None);
    assert_eq!(b.transactions.len(), 0);
}

#[test]
fn new_block_pays_the_previous_winner() {
    let g = genesis_with(&[("w", 10)], 5, 1);
    let mut prev = block::newAt(Some("w".to_string()), Some(g.genesisBlock), 7, 25, 2);
    assert_eq!(prev.chainLength, 1);
    prev.rewardAddr = Some("w".to_string());
    let next = block::newAt(None, Some(prev), 7, 25, 3);
    // 10 (its balance) + 25 (coinbase, no fees)
    assert_eq!(next.balanceOf("w"), 35);
    assert_eq!(next.chainLength, 2);
}

#[test]
fn rerun_replays_transactions() {
    let (ap, apub) = generateKeypair();
    let alice = calcAddress(&apub);
    let g = genesis_with(&[(&alice, 100)], 5, 1);
    let gb = g.genesisBlock;
    let mut b = block::newAt(None, Some(clone_block(&gb)), 7, 25, 2);
    let t = signed_tx(&ap, &apub, 0, vec![("bob".to_string(), 40)], 1);
    assert!(b.addTransaction(&t));
    b.balances = StrMap::new();
    assert!(b.rerun(&gb));
    assert_eq!(b.balanceOf(&alice), 59);
    assert_eq!(b.balanceOf("bob"), 40);
}

fn clone_block(b: &block) -> block {
    b.view_clone()
}

#[test]
fn client_balances_and_posting() {
    let g = genesis_with(&[], 5, 1);
    let kp = generateKeypair();
    let addr = calcAddress(&kp.1);
    let mut m: StrMap<i32> = StrMap::new();
    m.insert(addr.clone(), 233);
    let g = blockchain::makeGenesisAt(5, 25, 1, 6, Some(m), None, g.genesisBlock.timestamp);
    let mut alice = client::new("Alice", None, kp);
    assert_eq!(alice.address, addr);
    alice.setGenesisBlock(g.genesisBlock);
    assert_eq!(alice.confirmedBalance(), 233);
    assert_eq!(alice.availableGold(), 233);
    let t = alice.postTransaction(vec![("bob".to_string(), 40)], 0);
    assert_eq!(t.from, addr);
    assert_eq!(t.nonce, 0);
    assert!(t.validSignature());
    assert_eq!(alice.nonce, 1);
    assert_eq!(alice.availableGold(), 193);
    assert!(alice.tryPostTransaction(vec![("bob".to_string(), 500)], 0).is_none());
    assert_eq!(alice.nonce, 1);
    let resent = alice.resendPendingTransaction();
    assert_eq!(resent.len(), 1);
    let t2 = alice.postGenericTransaction(txData { sig: None, fee: 2, outputs: vec![], data: "x".to_string() });
    assert_eq!(t2.nonce, 1);
    assert_eq!(alice.availableGold(), 191);
}

#[test]
fn client_receives_a_mined_block() {
    let mkp = generateKeypair();
    let maddr = calcAddress(&mkp.1);
    let g = genesis_with(&[(&maddr, 10)], 0, 1);
    let gb = g.genesisBlock;
    let mut bob = client::new("Bob", Some(&gb), generateKeypair());
    let mut b = block::newAt(Some(maddr.clone()), Some(clone_block(&gb)), g.powTarget, 25, 5);
    // With no leading zeroes every proof is valid.
    assert!(b.hasValidProof());
    b.proof = 3;
    let (stored, msgs) = bob.receiveBlock(clone_block(&b));
    assert!(stored.is_some());
    assert!(msgs.is_empty());
    assert_eq!(bob.lastBlock.as_ref().unwrap().id, b.id);
    assert_eq!(bob.lastConfirmedBlock.as_ref().unwrap().id, gb.id);
    // Receiving it again changes nothing.
    let (again, _) = bob.receiveBlock(clone_block(&b));
    assert!(again.is_none());
    // The next block on top credits the previous winner.
    let c = block::newAt(None, Some(clone_block(&b)), g.powTarget, 25, 6);
    assert_eq!(c.balanceOf(&maddr), 10 + 25);
}

#[test]
fn client_waits_for_missing_block() {
    let g = genesis_with(&[], 0, 1);
    let gb = g.genesisBlock;
    let mut bob = client::new("Bob", Some(&gb), generateKeypair());
    let b1 = block::newAt(None, Some(clone_block(&gb)), g.powTarget, 25, 5);
    let b2 = block::newAt(None, Some(clone_block(&b1)), g.powTarget, 25, 6);
    let (stored, msgs) = bob.receiveBlock(clone_block(&b2));
    assert!(stored.is_none());
    assert_eq!(msgs.len(), 1);
    match &msgs[0] {
        NetMessage::MissingBlock(missing, from) => {
            assert_eq!(missing, &b1.id);
            assert_eq!(from, &bob.address);
        },
        _ => panic!("expected a request for the missing block"),
    }
    assert_eq!(bob.pendingBlocks.len(), 1);
    let (stored1, _) = bob.receiveBlock(clone_block(&b1));
    assert!(stored1.is_some());
    assert_eq!(bob.pendingBlocks.len(), 0);
    assert_eq!(bob.lastBlock.as_ref().unwrap().id, b2.id);
    assert!(bob.provideMissingBlock(&b1.id, "carol").is_some());
    assert!(bob.provideMissingBlock("unknown", "carol").is_none());
}

#[test]
fn network_registers_clients() {
    let mut net = fakeNet::new(1, 1);
    net.register(vec![("a".to_string(), 0), ("b".to_string(), 1), ("a".to_string(), 2)]);
    assert_eq!(net.clients.len(), 2);
    let t = transaction::new("x", 0, "k!", None, 0, vec![], "");
    assert_eq!(net.broadcast_post_transaction(&t), vec![2, 1]);
    assert_eq!(net.send_message_proof_found("b"), Some(1));
    assert_eq!(net.send_message_proof_found("c"), None);
}

#[test]
fn miner_mines_and_takes_its_block() {
    let kp = generateKeypair();
    let addr = calcAddress(&kp.1);
    let g = genesis_with(&[(&addr, 10)], 0, 1);
    let mut m = miner::new("Minnie", Some(&g.genesisBlock), kp, 5, g.powTarget);
    let msgs = m.initialize();
    let found = msgs.iter().filter(|x| matches!(x, NetMessage::ProofFound(_))).count();
    // Every proof is valid: each of the four rounds finds one at once.
    assert_eq!(found, 4);
    assert_eq!(m.client.lastBlock.as_ref().unwrap().chainLength, 4);
    assert_eq!(m.currentBlock.as_ref().unwrap().chainLength, 5);
}

#[test]
fn miner_keeps_transactions_as_a_set() {
    let g = genesis_with(&[], 0, 1);
    let mut m = miner::new("Minnie", Some(&g.genesisBlock), generateKeypair(), 5, g.powTarget);
    let t = transaction::new("x", 0, "k!", None, 0, vec![], "");
    assert!(m.addTransaction(clone_tx(&t)));
    assert!(!m.addTransaction(clone_tx(&t)));
    assert_eq!(m.transactions.len(), 1);
}

fn clone_tx(t: &transaction) -> transaction {
    t.view_clone()
}

#[test]
fn client_takes_in_a_chain_of_waiting_blocks() {
    let g = genesis_with(&[], 0, 1);
    let gb = g.genesisBlock;
    let mut bob = client::new("Bob", Some(&gb), generateKeypair());
    let b1 = block::newAt(None, Some(clone_block(&gb)), g.powTarget, 25, 5);
    let b2 = block::newAt(None, Some(clone_block(&b1)), g.powTarget, 25, 6);
    let b3 = block::newAt(None, Some(clone_block(&b2)), g.powTarget, 25, 7);
    let b4 = block::newAt(None, Some(clone_block(&b3)), g.powTarget, 25, 8);
    // Each block arrives before the one it builds on: each waits and asks.
    for b in [&b4, &b3, &b2] {
        let (stored, msgs) = bob.receiveBlock(clone_block(b));
        assert!(stored.is_none());
        assert_eq!(msgs.len(), 1);
    }
    assert_eq!(bob.pendingBlocks.len(), 3);
    // The missing block releases the whole chain, one inside the other.
    let r = bob.tryReceiveBlock(clone_block(&b1));
    let (stored, msgs) = r.expect("receiving the chain does not panic");
    assert_eq!(stored.unwrap().id, b1.id);
    assert!(msgs.is_empty());
    assert_eq!(bob.pendingBlocks.len(), 0);
    assert_eq!(bob.blocks.len(), 5);
    assert_eq!(bob.lastBlock.as_ref().unwrap().id, b4.id);
    // Fewer blocks than the confirmation depth: the genesis block stays confirmed.
    assert_eq!(bob.lastConfirmedBlock.as_ref().unwrap().id, gb.id);
}

#[test]
fn miner_moves_to_a_longer_chain() {
    let kp = generateKeypair();
    let addr = calcAddress(&kp.1);
    let g = genesis_with(&[(&addr, 10)], 0, 1);
    let mut a = miner::new("Minnie", Some(&g.genesisBlock), kp, 5, g.powTarget);
    let msgs = a.initialize();
    let mut b = miner::new("Mickey", Some(&g.genesisBlock), generateKeypair(), 5, g.powTarget);
    b.startNewSearch(Vec::new());
    assert_eq!(b.currentBlock.as_ref().unwrap().chainLength, 1);
    for msg in msgs {
        if let NetMessage::ProofFound(blk) = msg {
            let (stored, _) = b.receiveBlock(blk);
            assert!(stored.is_some());
        }
    }
    assert_eq!(b.client.lastBlock.as_ref().unwrap().chainLength, 4);
    assert_eq!(b.client.lastBlock.as_ref().unwrap().id, a.client.lastBlock.as_ref().unwrap().id);
    // The miner now builds on top of the longer chain.
    assert_eq!(b.currentBlock.as_ref().unwrap().chainLength, 5);
    assert_eq!(b.currentBlock.as_ref().unwrap().prevBlockHash.as_ref().unwrap(), &a.client.lastBlock.as_ref().unwrap().id);
}

#[test]
fn readme_transfer_leaves_confirmed_balances() {
    let mut net = fakeNet::new(1, 1);
    let mut alice = client::new("Alice", None, generateKeypair());
    let mut bob = client::new("Bob", None, generateKeypair());
    let mut cbm: StrMap<i32> = StrMap::new();
    cbm.insert(alice.address.clone(), 233);
    cbm.insert(bob.address.clone(), 99);
    let genesis = blockchain::makeGenesis(5, 25, 1, 6, Some(cbm), None);
    alice.setGenesisBlock(clone_block(&genesis.genesisBlock));
    bob.setGenesisBlock(clone_block(&genesis.genesisBlock));
    let last = alice.lastBlock.as_ref().unwrap();
    assert_eq!(last.balanceOf(&alice.address), 233);
    assert_eq!(last.balanceOf(&bob.address), 99);
    net.register(vec![(alice.address.clone(), 0), (bob.address.clone(), 1)]);
    let t = alice.postTransaction(vec![(bob.address.clone(), 40)], 0);
    assert_eq!(net.broadcast_post_transaction(&t).len(), 2);
    // Until a block holds the transfer, the balances of the chain stay.
    let last = alice.lastBlock.as_ref().unwrap();
    assert_eq!(last.balanceOf(&alice.address), 233);
    assert_eq!(last.balanceOf(&bob.address), 99);
    assert_eq!(alice.availableGold(), 193);
    assert_eq!(bob.availableGold(), 99);
}

#[test]
fn refused_transactions_say_why() {
    let kp = generateKeypair();
    let addr = calcAddress(&kp.1);
    let g = genesis_with(&[(&addr, 50)], 0, 1);
    let mut b = block::newAt(None, Some(clone_block(&g.genesisBlock)), g.powTarget, 25, 2);
    let unsigned = transaction::new(&addr, 0, &kp.1, None, 0, vec![("bob".to_string(), 1)], "");
    assert_eq!(b.addTransactionWithReason(&unsigned), Err(TxRefusal::Unsigned));
    let too_much = signed_tx(&kp.0, &kp.1, 0, vec![("bob".to_string(), 60)], 0);
    assert_eq!(b.addTransactionWithReason(&too_much), Err(TxRefusal::InsufficientGold));
    let ahead = signed_tx(&kp.0, &kp.1, 1, vec![("bob".to_string(), 5)], 0);
    assert_eq!(b.addTransactionWithReason(&ahead), Err(TxRefusal::OutOfOrder));
    let ok = signed_tx(&kp.0, &kp.1, 0, vec![("bob".to_string(), 5)], 0);
    assert_eq!(b.addTransactionWithReason(&ok), Ok(()));
    assert_eq!(b.balanceOf("bob"), 5);
    assert_eq!(b.addTransactionWithReason(&ok), Err(TxRefusal::Duplicate));
    let replay = signed_tx(&kp.0, &kp.1, 0, vec![("bob".to_string(), 6)], 0);
    assert_eq!(b.addTransactionWithReason(&replay), Err(TxRefusal::Replayed));
    let other = generateKeypair();
    let mut forged = transaction::new(&addr, 1, &kp.1, None, 0, vec![("bob".to_string(), 1)], "");
    forged.sign(&other.0);
    assert_eq!(b.addTransactionWithReason(&forged), Err(TxRefusal::InvalidSignature));
}

#[test]
fn known_and_unproved_blocks_are_refused() {
    let g = genesis_with(&[], 0, 1);
    let gb = g.genesisBlock;
    let bob = client::new("Bob", Some(&gb), generateKeypair());
    assert_eq!(bob.blockRefusal(&gb), Some(BlockRefusal::Known));
    let b1 = block::newAt(None, Some(clone_block(&gb)), g.powTarget, 25, 5);
    assert_eq!(bob.blockRefusal(&b1), None);
    let mut hard = block::newAt(None, Some(clone_block(&gb)), 0, 25, 5);
    hard.proof = 1;
    assert_eq!(bob.blockRefusal(&hard), Some(BlockRefusal::InvalidProof));
}

#[test]
fn any_ascii_key_pair_signs_and_binds() {
    let priv_key = "~ -_.!#%&()*+,/:;<=>?@[]^`{|}$".to_string();
    assert_eq!(priv_key.len(), 30);
    let pub_key = format!("{}?", priv_key);
    let sig = sign(&priv_key, "msg");
    assert!(verifySignature(&pub_key, "msg", &sig));
    assert!(!verifySignature(&pub_key, "msh", &sig));
    let other = "0123456789abcdefghijklmnopqrst".to_string();
    let forged = sign(&other, "msg");
    assert!(signatureCheckable(&pub_key, "msg", &forged));
    assert!(!verifySignature(&pub_key, "msg", &forged));
}

#[test]
fn rerun_pays_the_previous_winner_once() {
    let g = genesis_with(&[("a", 5)], 0, 1);
    let mut p = block::newAt(Some("a".to_string()), Some(clone_block(&g.genesisBlock)), 7, 25, 2);
    assert_eq!(p.balanceOf("a"), 5);
    p.rewardAddr = Some("a".to_string());
    let mut b = block::newAt(None, Some(clone_block(&g.genesisBlock)), 7, 25, 3);
    b.balances = StrMap::new();
    b.balances.insert("z".to_string(), 7);
    assert!(b.rerun(&p));
    assert_eq!(b.balanceOf("a"), 30);
    assert_eq!(b.balanceOf("z"), 0);
    assert_eq!(b.balances.len(), 1);
    assert_eq!(b.transactions.len(), 0);
}

#[test]
fn miner_new_search_reports_refusals() {
    let kp = generateKeypair();
    let addr = calcAddress(&kp.1);
    let g = genesis_with(&[(&addr, 10)], 0, 1);
    let mut m = miner::new("Minnie", Some(&g.genesisBlock), generateKeypair(), 5, g.powTarget);
    let ok = signed_tx(&kp.0, &kp.1, 0, vec![("bob".to_string(), 3)], 0);
    let poor = signed_tx(&kp.0, &kp.1, 1, vec![("bob".to_string(), 30)], 0);
    let refused = m.tryStartNewSearch(vec![ok.view_clone(), poor.view_clone()]).expect("no panic");
    assert_eq!(refused.len(), 1);
    assert_eq!(refused[0].0, poor.id);
    assert_eq!(refused[0].1, TxRefusal::InsufficientGold);
    let cb = m.currentBlock.as_ref().unwrap();
    assert!(cb.contains(&ok.id));
    assert!(!cb.contains(&poor.id));
    assert_eq!(cb.balanceOf("bob"), 3);
}
