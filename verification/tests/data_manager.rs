use vault_accounts::data_manager::{Account, Database};
use vault_accounts::name::Name;
use vault_accounts::utils::random_name;

#[test]
fn database_exist() {
    let mut db = Database::new();
    let mut pmid_nodes: Vec<Name> = vec![];

    for _ in 0..4 {
        pmid_nodes.push(random_name());
    }

    let data_name = random_name();
    assert_eq!(db.exist(&data_name), false);
    db.put_pmid_nodes(&data_name, pmid_nodes);
    assert_eq!(db.exist(&data_name), true);
}

#[test]
fn put() {
    let mut db = Database::new();
    let data_name = random_name();
    let mut pmid_nodes: Vec<Name> = vec![];

    for _ in 0..4 {
        pmid_nodes.push(random_name());
    }

    let result = db.get_pmid_nodes(&data_name);
    assert_eq!(result.len(), 0);

    db.put_pmid_nodes(&data_name, pmid_nodes.clone());

    let result = db.get_pmid_nodes(&data_name);
    assert_eq!(result.len(), pmid_nodes.len());
}

#[test]
fn remove_pmid() {
    let mut db = Database::new();
    let data_name = random_name();
    let mut pmid_nodes: Vec<Name> = vec![];

    for _ in 0..4 {
        pmid_nodes.push(random_name());
    }

    db.put_pmid_nodes(&data_name, pmid_nodes.clone());
    let result = db.get_pmid_nodes(&data_name);
    assert_eq!(result, pmid_nodes);

    db.remove_pmid_node(&data_name, pmid_nodes[0]);

    let result = db.get_pmid_nodes(&data_name);
    assert_eq!(result.len(), 3);
    for index in 0..result.len() {
        assert!(result[index] != pmid_nodes[0]);
    }
}

#[test]
fn replace_pmids() {
    let mut db = Database::new();
    let data_name = random_name();
    let mut pmid_nodes: Vec<Name> = vec![];
    let mut new_pmid_nodes: Vec<Name> = vec![];

    for _ in 0..4 {
        pmid_nodes.push(random_name());
        new_pmid_nodes.push(random_name());
    }

    db.put_pmid_nodes(&data_name, pmid_nodes.clone());
    let result = db.get_pmid_nodes(&data_name);
    assert_eq!(result, pmid_nodes);
    assert!(result != new_pmid_nodes);

    for index in 0..4 {
        db.remove_pmid_node(&data_name, pmid_nodes[index]);
        db.add_pmid_node(&data_name, new_pmid_nodes[index]);
    }

    let result = db.get_pmid_nodes(&data_name);
    assert_eq!(result, new_pmid_nodes);
    assert!(result != pmid_nodes);
}

#[test]
fn database_handle_account_transfer() {
    let mut db = Database::new();
    let data_name = random_name();
    let mut pmid_nodes: Vec<Name> = vec![];

    for _ in 0..4 {
        pmid_nodes.push(random_name());
    }
    db.put_pmid_nodes(&data_name, pmid_nodes.clone());
    assert_eq!(db.get_pmid_nodes(&data_name).len(), pmid_nodes.len());

    db.handle_account_transfer(Account::new(data_name, vec![]));
    assert_eq!(db.get_pmid_nodes(&data_name).len(), 0);
}
