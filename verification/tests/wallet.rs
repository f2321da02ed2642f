use btclib::network::Message;
use btclib::types::{Transaction, TransactionOutput};
use btclib::wallet::{
    fetched_utxos, find_recipient, LoadedKey, Recipient, UtxoEntry, UtxoStore, WalletError,
};
use std::path::PathBuf;

fn output(value: u64, owner: u8) -> TransactionOutput {
    TransactionOutput { value, unique_id: uuid::Uuid::nil(), pubkey: [owner; 33] }
}

fn entry(value: u64, marked: bool, tag: u8) -> UtxoEntry {
    UtxoEntry { marked, output: output(value, 0), hash: [tag; 32] }
}

fn key(public: u8, private: u8) -> LoadedKey {
    LoadedKey { public: [public; 33], private: vec![private] }
}

/// A signature that records which hash and which private key made it.
fn sign(hash: &[u8; 32], private: &Vec<u8>) -> [u8; 64] {
    let mut s = [0u8; 64];
    s[..32].copy_from_slice(hash);
    s[32] = private[0];
    s
}

fn store() -> UtxoStore {
    let mut s = UtxoStore::new();
    s.add_key(key(1, 101));
    s.add_key(key(2, 102));
    s.insert_utxos([1; 33], vec![entry(30, false, 11), entry(50, true, 12)]);
    s.insert_utxos([2; 33], vec![entry(40, false, 21), entry(25, false, 22)]);
    s
}

fn spent(tx: &Transaction) -> Vec<u8> {
    tx.inputs.iter().map(|i| i.prev_transaction_output_hash[0]).collect()
}

#[test]
fn new_store_is_empty_and_keys_are_added_in_order() {
    let mut s = UtxoStore::new();
    assert!(s.my_keys().is_empty() && s.utxos().is_empty());
    s.add_key(key(7, 8));
    s.add_key(key(9, 10));
    assert_eq!(s.my_keys()[0].public, [7; 33]);
    assert_eq!(s.my_keys()[1].public, [9; 33]);
}

#[test]
fn balance_counts_marked_outputs_too() {
    assert_eq!(store().get_balance(), 145);
    assert_eq!(store().checked_balance(), Some(145));
    assert_eq!(UtxoStore::new().get_balance(), 0);
}

#[test]
fn checked_balance_reports_overflow() {
    let mut s = UtxoStore::new();
    s.add_key(key(1, 1));
    s.insert_utxos([1; 33], vec![entry(u64::MAX, false, 1), entry(1, true, 2)]);
    assert_eq!(s.checked_balance(), None);
}

#[test]
fn payment_with_change_skips_marked_outputs() {
    let tx = store().create_transaction([9; 33], 60, 5, sign).unwrap();
    // 30 (key 1), 50 is marked, 40 (key 2): 70 >= 65
    assert_eq!(spent(&tx), vec![11, 21]);
    assert_eq!(tx.inputs[0].signature[32], 101);
    assert_eq!(tx.inputs[1].signature[32], 102);
    assert_eq!(&tx.inputs[1].signature[..32], &[21u8; 32]);
    assert_eq!(tx.outputs.len(), 2);
    assert_eq!(tx.outputs[0].value, 60);
    assert_eq!(tx.outputs[0].pubkey, [9; 33]);
    assert_eq!(tx.outputs[1].value, 5);
    assert_eq!(tx.outputs[1].pubkey, [1; 33]);
    assert_ne!(tx.outputs[0].unique_id, tx.outputs[1].unique_id);
}

#[test]
fn exact_payment_has_no_change() {
    let tx = store().create_transaction([9; 33], 65, 5, sign).unwrap();
    assert_eq!(spent(&tx), vec![11, 21]);
    assert_eq!(tx.outputs.len(), 1);
    assert_eq!(tx.outputs[0].value, 65);
}

#[test]
fn payment_spends_all_unmarked_when_needed() {
    let tx = store().create_transaction([9; 33], 90, 5, sign).unwrap();
    assert_eq!(spent(&tx), vec![11, 21, 22]);
    assert_eq!(tx.outputs.len(), 1);
}

#[test]
fn inputs_and_outputs_balance_with_the_fee() {
    let tx = store().create_transaction([9; 33], 31, 2, sign).unwrap();
    assert_eq!(spent(&tx), vec![11, 21]);
    let out: u64 = tx.outputs.iter().map(|o| o.value).sum();
    assert_eq!(out + 2, 30 + 40);
}

#[test]
fn marked_outputs_do_not_count_towards_funds() {
    // 145 in total, but only 95 is not marked
    assert_eq!(store().create_transaction([9; 33], 95, 1, sign).err(), Some(WalletError::InsufficientFunds));
    assert_eq!(store().create_transaction([9; 33], 200, 0, sign).err(), Some(WalletError::InsufficientFunds));
}

#[test]
fn zero_payment_from_empty_wallet() {
    let tx = UtxoStore::new().create_transaction([9; 33], 0, 0, sign).unwrap();
    assert!(tx.inputs.is_empty());
    assert_eq!(tx.outputs.len(), 1);
    assert_eq!(tx.outputs[0].value, 0);
    assert_eq!(UtxoStore::new().create_transaction([9; 33], 1, 0, sign).err(), Some(WalletError::InsufficientFunds));
}

#[test]
fn first_matching_private_key_signs() {
    let mut s = UtxoStore::new();
    s.add_key(key(3, 1));
    s.add_key(key(4, 2));
    s.add_key(key(4, 3));
    s.insert_utxos([4; 33], vec![entry(10, false, 7)]);
    let tx = s.create_transaction([9; 33], 10, 0, sign).unwrap();
    assert_eq!(tx.inputs[0].signature[32], 2);
}

fn contact(name: &str) -> Recipient {
    Recipient { name: name.to_string(), key: PathBuf::from(format!("{name}.pub.pem")) }
}

#[test]
fn find_recipient_returns_first_match() {
    let contacts = vec![contact("alice"), contact("bob"), contact("bob")];
    assert_eq!(find_recipient(&contacts, "bob"), Ok(1));
    assert_eq!(find_recipient(&contacts, "alice"), Ok(0));
    assert_eq!(find_recipient(&contacts, "carol"), Err(WalletError::RecipientNotFound));
    assert_eq!(find_recipient(&contacts, "bo"), Err(WalletError::RecipientNotFound));
    assert_eq!(find_recipient(&Vec::new(), "bob"), Err(WalletError::RecipientNotFound));
}

#[test]
fn recipient_load_keeps_name_and_key() {
    let loaded = contact("alice").load([6; 33]);
    assert_eq!(loaded.name, "alice");
    assert_eq!(loaded.key, [6; 33]);
}

#[test]
fn fetched_utxos_swaps_each_pair() {
    let reply = Message::UTXOs(vec![(output(5, 1), true), (output(6, 2), false)]);
    let got = fetched_utxos(reply).unwrap();
    assert_eq!(got.len(), 2);
    assert!(got[0].0 && got[0].1.value == 5);
    assert!(!got[1].0 && got[1].1.value == 6);
}

#[test]
fn fetched_utxos_refuses_other_replies() {
    assert_eq!(fetched_utxos(Message::DiscoverNodes).err(), Some(WalletError::UnexpectedResponse));
    assert_eq!(fetched_utxos(Message::TemplateValidity(true)).err(), Some(WalletError::UnexpectedResponse));
    assert!(fetched_utxos(Message::UTXOs(vec![])).unwrap().is_empty());
}

#[test]
fn has_key_knows_the_wallet_keys() {
    assert!(store().has_key(&[1; 33]));
    assert!(store().has_key(&[2; 33]));
    assert!(!store().has_key(&[8; 33]));
    assert!(!UtxoStore::new().has_key(&[1; 33]));
}

#[test]
fn insert_utxos_keeps_keys_ascending_and_replaces() {
    let mut s = UtxoStore::new();
    s.add_key(key(5, 1));
    s.add_key(key(2, 2));
    s.add_key(key(9, 3));
    s.insert_utxos([9; 33], vec![entry(1, false, 1)]);
    s.insert_utxos([2; 33], vec![entry(2, false, 2)]);
    s.insert_utxos([5; 33], vec![entry(3, false, 3)]);
    let keys: Vec<u8> = s.utxos().iter().map(|g| g.0[0]).collect();
    assert_eq!(keys, vec![2, 5, 9]);
    s.insert_utxos([5; 33], vec![entry(7, true, 4), entry(8, false, 5)]);
    let keys: Vec<u8> = s.utxos().iter().map(|g| g.0[0]).collect();
    assert_eq!(keys, vec![2, 5, 9]);
    assert_eq!(s.utxos()[1].1.len(), 2);
    assert_eq!(s.utxos()[1].1[0].output.value, 7);
    assert_eq!(s.get_balance(), 1 + 2 + 7 + 8);
    // walking in key order: 2 (key 2) first, then 8 (key 5), 7 is marked
    let tx = s.create_transaction([0; 33], 9, 0, sign).unwrap();
    assert_eq!(spent(&tx), vec![2, 5]);
}

#[test]
fn smaller_total_still_pays() {
    for total in [95, 60, 30, 1, 0] {
        assert!(store().create_transaction([9; 33], total, 0, sign).is_ok());
        assert!(total <= store().get_balance());
    }
}

#[test]
fn spent_value_is_what_a_payment_spends() {
    assert_eq!(store().spent_value(65), Some(70));
    assert_eq!(store().spent_value(95), Some(95));
    assert_eq!(store().spent_value(500), Some(95));
    assert_eq!(store().spent_value(0), Some(0));
}

#[test]
fn spent_value_reports_overflow_only_along_the_way() {
    let mut s = UtxoStore::new();
    s.add_key(key(1, 1));
    s.insert_utxos([1; 33], vec![entry(u64::MAX - 1, false, 1), entry(5, false, 2), entry(u64::MAX, false, 3)]);
    assert_eq!(s.spent_value(u64::MAX - 1), Some(u64::MAX - 1));
    assert_eq!(s.spent_value(u64::MAX), None);
    let tx = s.create_transaction([9; 33], u64::MAX - 1, 0, sign).unwrap();
    assert_eq!(spent(&tx), vec![1]);
}

#[test]
fn refreshing_twice_with_the_same_replies_equals_once() {
    let replies = vec![([2u8; 33], vec![entry(4, false, 1)]), ([1u8; 33], vec![entry(6, true, 2), entry(1, false, 3)])];
    let refresh = |s: &mut UtxoStore| {
        for (k, v) in &replies {
            s.insert_utxos(*k, v.clone());
        }
    };
    let mut s = UtxoStore::new();
    s.add_key(key(1, 1));
    s.add_key(key(2, 2));
    refresh(&mut s);
    let once: Vec<([u8; 33], Vec<u64>)> =
        s.utxos().iter().map(|(k, v)| (*k, v.iter().map(|e| e.output.value).collect())).collect();
    refresh(&mut s);
    let twice: Vec<([u8; 33], Vec<u64>)> =
        s.utxos().iter().map(|(k, v)| (*k, v.iter().map(|e| e.output.value).collect())).collect();
    assert_eq!(once, twice);
    assert_eq!(once, vec![([1u8; 33], vec![6, 1]), ([2u8; 33], vec![4])]);
}

#[test]
fn balance_after_a_refresh_is_the_sum_of_the_replies() {
    let mut s = UtxoStore::new();
    s.add_key(key(1, 1));
    s.add_key(key(2, 2));
    s.insert_utxos([1; 33], vec![entry(6, true, 1), entry(1, false, 2)]);
    s.insert_utxos([2; 33], vec![entry(4, false, 3)]);
    assert_eq!(s.get_balance(), 11);
    // replacing a key's outputs drops the old ones from the balance
    s.insert_utxos([1; 33], vec![entry(20, false, 4)]);
    assert_eq!(s.get_balance(), 24);
}
