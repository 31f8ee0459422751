use vault_accounts::actions::{
    Authority, DataRequest, ImmutableDataType, MethodCall, DATA_MANAGER_ACCOUNT_TAG,
    PMID_MANAGER_ACCOUNT_TAG,
};
use vault_accounts::data_manager;
use vault_accounts::data_manager::{Database, GROUP_SIZE};
use vault_accounts::pmid_manager;
use vault_accounts::pmid_manager::{AccountValue, PmidManagerDatabase};
use vault_accounts::utils::random_name;

fn quorum() -> usize {
    ((GROUP_SIZE + 1) / 2) as usize
}

#[test]
fn holder_merge_accepts_majority_set() {
    let key = random_name();
    let holders = vec![random_name(), random_name(), random_name()];
    let mut responses = Vec::new();
    for _ in 0..quorum() {
        responses.push(data_manager::Account::new(key, holders.clone()));
    }
    responses.push(data_manager::Account::new(key, vec![random_name()]));
    responses.push(data_manager::Account::new(key, vec![random_name()]));

    let merged = data_manager::Account::merge(key, responses).unwrap();
    assert_eq!(*merged.name(), key);
    assert_eq!(*merged.data_holders(), holders);
}

#[test]
fn holder_merge_without_majority_yields_nothing() {
    let key = random_name();
    let mut responses = Vec::new();
    for _ in 0..3 {
        responses.push(data_manager::Account::new(key, vec![random_name()]));
    }
    assert!(data_manager::Account::merge(key, responses).is_none());
}

#[test]
fn holder_merge_of_empty_batch_yields_nothing() {
    let key = random_name();
    assert!(data_manager::Account::merge(key, Vec::new()).is_none());
}

#[test]
fn holder_merge_excludes_mismatched_keys() {
    let key = random_name();
    let other_key = random_name();
    let holders = vec![random_name()];
    let mut responses = Vec::new();
    for _ in 0..quorum() + 2 {
        responses.push(data_manager::Account::new(other_key, holders.clone()));
    }
    assert!(data_manager::Account::merge(key, responses).is_none());
}

#[test]
fn holder_merge_skips_malformed_cached_reports() {
    let key = random_name();
    let holders = vec![random_name(), random_name()];
    let mut responses = Vec::new();
    for _ in 0..quorum() {
        responses.push(data_manager::Account::new(key, holders.clone()));
    }
    // A report whose cached serialised form is garbage decodes to nothing
    // and must be skipped without disturbing the merge.
    responses.push(data_manager::Account {
        name: key,
        data_holders: holders.clone(),
        preserialised_content: vec![1, 2, 3],
        has_preserialised_content: true,
    });

    let merged = data_manager::Account::merge(key, responses).unwrap();
    assert_eq!(*merged.data_holders(), holders);
}

#[test]
fn holder_merge_breaks_ties_by_encounter_order() {
    let key = random_name();
    let first_set = vec![random_name()];
    let second_set = vec![random_name()];
    let mut responses = Vec::new();
    responses.push(data_manager::Account::new(key, first_set.clone()));
    for _ in 0..quorum() - 1 {
        responses.push(data_manager::Account::new(key, second_set.clone()));
        responses.push(data_manager::Account::new(key, first_set.clone()));
    }
    responses.push(data_manager::Account::new(key, second_set.clone()));

    let merged = data_manager::Account::merge(key, responses).unwrap();
    assert_eq!(*merged.data_holders(), first_set);
}

#[test]
fn holder_merge_trusts_cached_bytes_over_fields() {
    let key = random_name();
    let cached_holders = vec![random_name(), random_name()];
    let cached = data_manager::Account::new(key, cached_holders.clone());
    let mut responses = Vec::new();
    for _ in 0..quorum() {
        // Each report claims other holders in its fields, but carries the
        // serialised form of `cached`; the bytes are what count.
        responses.push(data_manager::Account {
            name: key,
            data_holders: vec![random_name()],
            preserialised_content: cached.serialised_contents(),
            has_preserialised_content: true,
        });
    }
    let merged = data_manager::Account::merge(key, responses).unwrap();
    assert_eq!(*merged.data_holders(), cached_holders);
}

#[test]
fn holder_account_round_trips_through_wire_form() {
    let account = data_manager::Account::new(
        random_name(),
        vec![random_name(), random_name(), random_name(), random_name()],
    );
    let bytes = account.serialised_contents();
    let decoded = data_manager::Account::decode(&bytes).unwrap();
    assert_eq!(account, decoded);
}

#[test]
fn holder_account_decode_rejects_malformed_bytes() {
    assert!(data_manager::Account::decode(&vec![]).is_none());
    assert!(data_manager::Account::decode(&vec![0u8; 80]).is_none());
    let account = data_manager::Account::new(random_name(), vec![random_name()]);
    let mut bytes = account.serialised_contents();
    bytes.pop();
    assert!(data_manager::Account::decode(&bytes).is_none());
}

#[test]
fn usage_merge_takes_per_field_median() {
    let key = random_name();
    let responses = vec![
        pmid_manager::Account::new(key, AccountValue::new(10, 1, 7)),
        pmid_manager::Account::new(key, AccountValue::new(20, 2, 8)),
        pmid_manager::Account::new(key, AccountValue::new(30, 3, 9)),
    ];
    let merged = pmid_manager::Account::merge(key, responses).unwrap();
    assert_eq!(merged.value().stored_total_size(), 20);
    assert_eq!(merged.value().lost_total_size(), 2);
    assert_eq!(merged.value().offered_space(), 8);
}

#[test]
fn usage_merge_averages_central_pair_for_even_batches() {
    let key = random_name();
    let responses = vec![
        pmid_manager::Account::new(key, AccountValue::new(10, 0, 0)),
        pmid_manager::Account::new(key, AccountValue::new(20, 0, 0)),
        pmid_manager::Account::new(key, AccountValue::new(30, 0, 0)),
        pmid_manager::Account::new(key, AccountValue::new(40, 0, 0)),
    ];
    let merged = pmid_manager::Account::merge(key, responses).unwrap();
    assert_eq!(merged.value().stored_total_size(), 25);
}

#[test]
fn usage_merge_of_single_report_is_that_report() {
    let key = random_name();
    let value = AccountValue::new(11, 22, 33);
    let merged =
        pmid_manager::Account::merge(key, vec![pmid_manager::Account::new(key, value)]).unwrap();
    assert_eq!(*merged.value(), value);
}

#[test]
fn usage_merge_without_valid_reports_yields_nothing() {
    let key = random_name();
    assert!(pmid_manager::Account::merge(key, Vec::new()).is_none());
    let stale = pmid_manager::Account::new(random_name(), AccountValue::new(5, 5, 5));
    assert!(pmid_manager::Account::merge(key, vec![stale]).is_none());
}

#[test]
fn usage_account_round_trips_through_wire_form() {
    let account = pmid_manager::Account::new(random_name(), AccountValue::new(1, 2, 3));
    let bytes = account.serialised_contents();
    assert_eq!(pmid_manager::Account::decode(&bytes).unwrap(), account);
    assert!(pmid_manager::Account::decode(&vec![0u8; 87]).is_none());
}

#[test]
fn delete_larger_than_stored_clamps_to_zero() {
    let mut value = AccountValue::new(100, 0, 0);
    value.delete_data(1000);
    assert_eq!(value.stored_total_size(), 0);
}

#[test]
fn put_then_delete_restores_stored_total() {
    let mut value = AccountValue::new(500, 4, 9);
    assert!(value.put_data(250));
    assert_eq!(value.stored_total_size(), 750);
    value.delete_data(250);
    assert_eq!(value, AccountValue::new(500, 4, 9));
}

#[test]
fn lost_data_is_deleted_and_recorded() {
    let mut value = AccountValue::new(100, 10, 0);
    value.handle_lost_data(30);
    assert_eq!(value.stored_total_size(), 70);
    assert_eq!(value.lost_total_size(), 40);
    value.handle_falure(200);
    assert_eq!(value.stored_total_size(), 0);
    assert_eq!(value.lost_total_size(), 240);
    value.update_account(5);
    assert_eq!(value.lost_total_size(), 245);
    value.set_available_size(77);
    assert_eq!(value.offered_space(), 77);
}

#[test]
fn default_usage_account_assumes_capacity() {
    let value: AccountValue = Default::default();
    assert_eq!(value.stored_total_size(), 0);
    assert_eq!(value.lost_total_size(), 0);
    assert_eq!(value.offered_space(), 1073741824);
}

#[test]
fn second_set_of_holders_is_a_no_op() {
    let mut db = Database::new();
    let key = random_name();
    let first = vec![random_name(), random_name()];
    let second = vec![random_name()];
    db.put_pmid_nodes(&key, first.clone());
    db.put_pmid_nodes(&key, second);
    assert_eq!(db.get_pmid_nodes(&key), first);
}

#[test]
fn adding_a_holder_twice_adds_it_once() {
    let mut db = Database::new();
    let key = random_name();
    let node = random_name();
    db.add_pmid_node(&key, node);
    db.add_pmid_node(&key, node);
    assert_eq!(db.get_pmid_nodes(&key), vec![node]);
}

#[test]
fn removing_absent_key_or_holder_is_a_no_op() {
    let mut db = Database::new();
    let key = random_name();
    let node = random_name();
    db.remove_pmid_node(&key, node);
    assert!(!db.exist(&key));
    db.put_pmid_nodes(&key, vec![node]);
    db.remove_pmid_node(&key, random_name());
    assert_eq!(db.get_pmid_nodes(&key), vec![node]);
}

#[test]
fn churn_drain_of_fully_replicated_entry_emits_one_refresh() {
    let mut db = Database::new();
    let key = random_name();
    let holders = vec![random_name(), random_name(), random_name()];
    db.put_pmid_nodes(&key, holders);
    let mut close_group: Vec<_> = Vec::new();
    let actions = db.retrieve_all_and_reset(&mut close_group);
    assert_eq!(actions.len(), 1);
    match &actions[0] {
        MethodCall::Refresh { type_tag, our_authority, payload } => {
            assert_eq!(*type_tag, DATA_MANAGER_ACCOUNT_TAG);
            assert_eq!(*our_authority, Authority::NaeManager(key));
            assert!(!payload.is_empty());
        }
        _ => panic!("expected a refresh action"),
    }
    assert_eq!(db.exist(&key), false);
}

#[test]
fn churn_drain_of_under_replicated_entry_emits_fetch_and_refresh() {
    let mut db = Database::new();
    let key = random_name();
    let holder = random_name();
    db.put_pmid_nodes(&key, vec![holder]);
    let mut close_group: Vec<_> = Vec::new();
    let actions = db.retrieve_all_and_reset(&mut close_group);
    assert_eq!(actions.len(), 2);
    match &actions[0] {
        MethodCall::Get { location, data_request } => {
            assert_eq!(*location, Authority::ManagedNode(holder));
            assert_eq!(
                *data_request,
                DataRequest::ImmutableData(key, ImmutableDataType::Normal)
            );
        }
        _ => panic!("expected a fetch action first"),
    }
    assert!(matches!(&actions[1], MethodCall::Refresh { .. }));
    assert_eq!(db.exist(&key), false);
    // The pre-churn view stays consultable in the scratch snapshot.
    assert_eq!(db.temp_storage_after_churn.len(), 1);
}

#[test]
fn usage_drain_keeps_only_nodes_still_in_the_group() {
    let mut db = PmidManagerDatabase::new();
    let in_group = random_name();
    let gone = random_name();
    db.put_data(&in_group, 64);
    db.put_data(&gone, 128);
    let close_group = vec![in_group, random_name()];
    let actions = db.retrieve_all_and_reset(&close_group);
    assert_eq!(actions.len(), 1);
    match &actions[0] {
        MethodCall::Refresh { type_tag, our_authority, payload } => {
            assert_eq!(*type_tag, PMID_MANAGER_ACCOUNT_TAG);
            assert_eq!(*our_authority, Authority::NodeManager(in_group));
            assert!(!payload.is_empty());
        }
        _ => panic!("expected a refresh action"),
    }
    assert!(db.storage.is_empty());
}
