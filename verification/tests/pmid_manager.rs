use vault_accounts::pmid_manager::{Account, AccountValue, PmidManagerDatabase};
use vault_accounts::name::Name;
use vault_accounts::utils::random_name;

fn storage_contains(db: &PmidManagerDatabase, name: &Name) -> bool {
    db.storage.iter().any(|entry| entry.0 == *name)
}

fn storage_value(db: &PmidManagerDatabase, name: &Name) -> AccountValue {
    db.storage
        .iter()
        .find(|entry| entry.0 == *name)
        .map(|entry| entry.1)
        .unwrap()
}

#[test]
fn exist() {
    let mut db = PmidManagerDatabase::new();
    let name = random_name();
    assert!(!storage_contains(&db, &name));
    db.put_data(&name, 1024);
    assert!(storage_contains(&db, &name));
}

#[test]
fn handle_account_transfer() {
    let mut db = PmidManagerDatabase::new();
    let name = random_name();
    assert!(db.put_data(&name, 1024));
    assert!(storage_contains(&db, &name));

    let account_value = AccountValue::new(
        rand::random::<u64>(),
        rand::random::<u64>(),
        rand::random::<u64>(),
    );
    let account = Account::new(name, account_value);
    db.handle_account_transfer(account);
    assert_eq!(storage_value(&db, &name), account_value);
}

#[test]
fn pmid_manager_account_serialisation() {
    let word = u64::from_le_bytes([1u8; 8]);
    let obj_before = Account::new(
        Name(word, word, word, word, word, word, word, word),
        AccountValue::new(
            rand::random::<u64>(),
            rand::random::<u64>(),
            rand::random::<u64>(),
        ),
    );

    let encoded = obj_before.serialised_contents();
    let obj_after: Account = Account::decode(&encoded).unwrap();

    assert_eq!(obj_before, obj_after);
}
