//! Usage accounting: how much storage each node has consumed, lost and
//! offered, with the median-based reconciliation of divergent peer reports.

use vstd::prelude::*;

use crate::actions::{
    calls_view, lemma_calls_view_push, Authority, MethodCall, MethodCallView,
    PMID_MANAGER_ACCOUNT_TAG,
};
use crate::codec::{
    lemma_name_round_trip, name_bytes, name_from_bytes, push_name, push_u64_le, read_name,
    read_u64_le,
};
use crate::name::{contains_name, key_index, lemma_key_index, Name};
use crate::utils::{median, median_spec};

verus! {

/// The capacity assumed for a node that has not negotiated one: account
/// creation is bypassed, so first contact grants this default allowance.
pub const DEFAULT_OFFERED_SPACE: u64 = 1073741824;

/// Per-node usage counters.  `stored_total_size` never underflows: any
/// decrement larger than the current value clamps to zero.
#[derive(Clone, Copy, PartialEq, Eq, Structural, Debug)]
pub struct AccountValue {
    pub stored_total_size: u64,
    pub lost_total_size: u64,
    pub offered_space: u64,
}

/// The counters after storing `size` more bytes.
pub open spec fn put_value_spec(v: AccountValue, size: u64) -> AccountValue {
    AccountValue {
        stored_total_size: (v.stored_total_size + size) as u64,
        lost_total_size: v.lost_total_size,
        offered_space: v.offered_space,
    }
}

/// The counters after deleting `size` bytes, clamped at zero.
pub open spec fn delete_value_spec(v: AccountValue, size: u64) -> AccountValue {
    AccountValue {
        stored_total_size: if v.stored_total_size < size {
            0u64
        } else {
            (v.stored_total_size - size) as u64
        },
        lost_total_size: v.lost_total_size,
        offered_space: v.offered_space,
    }
}

/// The counters after `size` bytes were lost: deleted, and recorded lost.
pub open spec fn lost_value_spec(v: AccountValue, size: u64) -> AccountValue {
    AccountValue {
        stored_total_size: delete_value_spec(v, size).stored_total_size,
        lost_total_size: (v.lost_total_size + size) as u64,
        offered_space: v.offered_space,
    }
}

impl Default for AccountValue {
    /// The account assumed for a node never seen before: nothing stored or
    /// lost, and the fixed default allowance.
    fn default() -> (r: AccountValue)
        ensures
            r == (AccountValue {
                stored_total_size: 0u64,
                lost_total_size: 0u64,
                offered_space: DEFAULT_OFFERED_SPACE,
            }),
    {
        AccountValue {
            stored_total_size: 0,
            lost_total_size: 0,
            offered_space: DEFAULT_OFFERED_SPACE,
        }
    }
}

impl AccountValue {
    pub fn new(stored_total_size: u64, lost_total_size: u64, offered_space: u64) -> (r:
        AccountValue)
        ensures
            r == (AccountValue { stored_total_size, lost_total_size, offered_space }),
    {
        AccountValue { stored_total_size, lost_total_size, offered_space }
    }

    /// Stores `size` more bytes.  Always succeeds: capacity enforcement is a
    /// deliberately uncalled policy hook, so the allowance is never checked.
    pub fn put_data(&mut self, size: u64) -> (r: bool)
        requires
            old(self).stored_total_size + size <= u64::MAX,
        ensures
            r == true,
            *final(self) == put_value_spec(*old(self), size),
    {
        self.stored_total_size = self.stored_total_size + size;
        true
    }

    /// Removes `size` bytes, clamping the stored total at zero.
    pub fn delete_data(&mut self, size: u64)
        ensures
            *final(self) == delete_value_spec(*old(self), size),
    {
        if self.stored_total_size < size {
            self.stored_total_size = 0;
        } else {
            self.stored_total_size = self.stored_total_size - size;
        }
    }

    /// Records that the node dropped `size` bytes rather than deleting them.
    pub fn handle_lost_data(&mut self, size: u64)
        requires
            old(self).lost_total_size + size <= u64::MAX,
        ensures
            *final(self) == lost_value_spec(*old(self), size),
    {
        self.delete_data(size);
        self.lost_total_size = self.lost_total_size + size;
    }

    /// A failure of the node loses the bytes it held.
    pub fn handle_falure(&mut self, size: u64)
        requires
            old(self).lost_total_size + size <= u64::MAX,
        ensures
            *final(self) == lost_value_spec(*old(self), size),
    {
        self.handle_lost_data(size);
    }

    /// Overwrites the offered capacity.
    pub fn set_available_size(&mut self, available_size: u64)
        ensures
            *final(self) == (AccountValue { offered_space: available_size, ..*old(self) }),
    {
        self.offered_space = available_size;
    }

    /// Reconciles a reported difference: the stored total shrinks by
    /// `diff_size` (clamped at zero) and the lost total grows by it.
    pub fn update_account(&mut self, diff_size: u64)
        requires
            old(self).lost_total_size + diff_size <= u64::MAX,
        ensures
            *final(self) == lost_value_spec(*old(self), diff_size),
    {
        if self.stored_total_size < diff_size {
            self.stored_total_size = 0;
        } else {
            self.stored_total_size = self.stored_total_size - diff_size;
        }
        self.lost_total_size = self.lost_total_size + diff_size;
    }

    pub fn stored_total_size(&self) -> (r: u64)
        ensures
            r == self.stored_total_size,
    {
        self.stored_total_size
    }

    pub fn lost_total_size(&self) -> (r: u64)
        ensures
            r == self.lost_total_size,
    {
        self.lost_total_size
    }

    pub fn offered_space(&self) -> (r: u64)
        ensures
            r == self.offered_space,
    {
        self.offered_space
    }
}

/// Deleting more than is stored leaves exactly zero, and storing then
/// deleting the same amount restores the counters.
pub proof fn lemma_delete_clamps_and_inverts_put(v: AccountValue, size: u64)
    requires
        v.stored_total_size + size <= u64::MAX,
    ensures
        size > v.stored_total_size ==> delete_value_spec(v, size).stored_total_size == 0,
        delete_value_spec(put_value_spec(v, size), size) == v,
{
}

/// One node's usage record, as exchanged between peers.
#[derive(Clone, Copy, PartialEq, Eq, Structural, Debug)]
pub struct Account {
    pub name: Name,
    pub value: AccountValue,
}

/// The wire form of a usage account: the node identifier, then the three
/// counters as little-endian words.
pub open spec fn encode_account_spec(a: Account) -> Seq<u8> {
    name_bytes(a.name) + vstd::bytes::spec_u64_to_le_bytes(a.value.stored_total_size)
        + vstd::bytes::spec_u64_to_le_bytes(a.value.lost_total_size)
        + vstd::bytes::spec_u64_to_le_bytes(a.value.offered_space)
}

/// The usage account read back from its wire form, if the length is right.
pub open spec fn decode_account_spec(b: Seq<u8>) -> Option<Account> {
    if b.len() != 88 {
        None
    } else {
        Some(
            Account {
                name: name_from_bytes(b.subrange(0, 64)),
                value: AccountValue {
                    stored_total_size: vstd::bytes::spec_u64_from_le_bytes(b.subrange(64, 72)),
                    lost_total_size: vstd::bytes::spec_u64_from_le_bytes(b.subrange(72, 80)),
                    offered_space: vstd::bytes::spec_u64_from_le_bytes(b.subrange(80, 88)),
                },
            },
        )
    }
}

/// A usage account round-trips through its wire form unchanged.
pub proof fn lemma_account_round_trip(a: Account)
    ensures
        encode_account_spec(a).len() == 88,
        decode_account_spec(encode_account_spec(a)) == Some(a),
{
    vstd::bytes::lemma_auto_spec_u64_to_from_le_bytes();
    lemma_name_round_trip(a.name);
    let b = encode_account_spec(a);
    assert(b.subrange(0, 64) =~= name_bytes(a.name));
    assert(b.subrange(64, 72) =~= vstd::bytes::spec_u64_to_le_bytes(a.value.stored_total_size));
    assert(b.subrange(72, 80) =~= vstd::bytes::spec_u64_to_le_bytes(a.value.lost_total_size));
    assert(b.subrange(80, 88) =~= vstd::bytes::spec_u64_to_le_bytes(a.value.offered_space));
}

/// The values of the reports that declare the expected key; stale or
/// mismatched reports are silently excluded.
pub open spec fn valid_values(rs: Seq<Account>, g: Name) -> Seq<AccountValue>
    decreases rs.len(),
{
    if rs.len() == 0 {
        Seq::empty()
    } else {
        let rest = valid_values(rs.drop_last(), g);
        if rs.last().name == g {
            rest.push(rs.last().value)
        } else {
            rest
        }
    }
}

pub open spec fn stored_seq(vs: Seq<AccountValue>) -> Seq<u64> {
    vs.map(|i: int, v: AccountValue| v.stored_total_size)
}

pub open spec fn lost_seq(vs: Seq<AccountValue>) -> Seq<u64> {
    vs.map(|i: int, v: AccountValue| v.lost_total_size)
}

pub open spec fn offered_seq(vs: Seq<AccountValue>) -> Seq<u64> {
    vs.map(|i: int, v: AccountValue| v.offered_space)
}

impl Account {
    pub fn new(name: Name, value: AccountValue) -> (r: Account)
        ensures
            r == (Account { name, value }),
    {
        Account { name, value }
    }

    pub fn name(&self) -> (r: &Name)
        ensures
            *r == self.name,
    {
        &self.name
    }

    pub fn value(&self) -> (r: &AccountValue)
        ensures
            *r == self.value,
    {
        &self.value
    }

    /// The account in its wire form.
    pub fn serialised_contents(&self) -> (r: Vec<u8>)
        ensures
            r@ == encode_account_spec(*self),
    {
        let mut out: Vec<u8> = Vec::new();
        push_name(&mut out, &self.name);
        push_u64_le(&mut out, self.value.stored_total_size);
        push_u64_le(&mut out, self.value.lost_total_size);
        push_u64_le(&mut out, self.value.offered_space);
        assert(out@ =~= encode_account_spec(*self));
        out
    }

    /// The account read back from its wire form, or nothing if the bytes
    /// are malformed.
    pub fn decode(b: &Vec<u8>) -> (r: Option<Account>)
        ensures
            r == decode_account_spec(b@),
    {
        if b.len() != 88 {
            return None;
        }
        let name = read_name(b, 0);
        let stored = read_u64_le(b, 64);
        let lost = read_u64_le(b, 72);
        let offered = read_u64_le(b, 80);
        Some(
            Account {
                name,
                value: AccountValue {
                    stored_total_size: stored,
                    lost_total_size: lost,
                    offered_space: offered,
                },
            },
        )
    }

    /// Reconciles a batch of peer reports for the node `from_group` into one
    /// canonical record: reports declaring another key are discarded, and
    /// each counter is the median of the remaining reports.  One valid
    /// report suffices; an empty or wholly mismatched batch yields nothing
    /// rather than a fabricated zero record.
    pub fn merge(from_group: Name, responses: Vec<Account>) -> (r: Option<Account>)
        ensures
            ({
                let vs = valid_values(responses@, from_group);
                if vs.len() == 0 {
                    r is None
                } else {
                    r == Some(
                        Account {
                            name: from_group,
                            value: AccountValue {
                                stored_total_size: median_spec(stored_seq(vs)),
                                lost_total_size: median_spec(lost_seq(vs)),
                                offered_space: median_spec(offered_seq(vs)),
                            },
                        },
                    )
                }
            }),
    {
        let mut stored: Vec<u64> = Vec::new();
        let mut lost: Vec<u64> = Vec::new();
        let mut offered: Vec<u64> = Vec::new();
        let mut i: usize = 0;
        while i < responses.len()
            invariant
                0 <= i <= responses@.len(),
                stored@ == stored_seq(valid_values(responses@.subrange(0, i as int), from_group)),
                lost@ == lost_seq(valid_values(responses@.subrange(0, i as int), from_group)),
                offered@ == offered_seq(
                    valid_values(responses@.subrange(0, i as int), from_group),
                ),
            decreases responses@.len() - i,
        {
            let ghost prefix = responses@.subrange(0, i as int);
            let ghost next = responses@.subrange(0, i + 1);
            proof {
                assert(next.drop_last() =~= prefix);
                assert(next.last() == responses@[i as int]);
            }
            let response = &responses[i];
            if response.name == from_group {
                stored.push(response.value.stored_total_size);
                lost.push(response.value.lost_total_size);
                offered.push(response.value.offered_space);
                proof {
                    let vs = valid_values(prefix, from_group);
                    let vs2 = valid_values(next, from_group);
                    assert(vs2 == vs.push(responses@[i as int].value));
                    assert(stored_seq(vs2) =~= stored_seq(vs).push(
                        responses@[i as int].value.stored_total_size,
                    ));
                    assert(lost_seq(vs2) =~= lost_seq(vs).push(
                        responses@[i as int].value.lost_total_size,
                    ));
                    assert(offered_seq(vs2) =~= offered_seq(vs).push(
                        responses@[i as int].value.offered_space,
                    ));
                }
            }
            i += 1;
        }
        proof {
            assert(responses@.subrange(0, responses@.len() as int) =~= responses@);
        }
        if stored.len() == 0 {
            return None;
        }
        let merged_stored = median(stored);
        let merged_lost = median(lost);
        let merged_offered = median(offered);
        Some(
            Account::new(
                from_group,
                AccountValue::new(merged_stored, merged_lost, merged_offered),
            ),
        )
    }
}

/// The local table of usage accounts, keyed by node identifier with each
/// key held at most once.
pub struct PmidManagerDatabase {
    pub storage: Vec<(Name, AccountValue)>,
}

/// The table after a store of `size` bytes against `k`: an absent key first
/// receives the default account.
pub open spec fn put_data_spec(t: Seq<(Name, AccountValue)>, k: Name, size: u64) -> Seq<
    (Name, AccountValue),
> {
    let ki = key_index(t, k);
    if ki < 0 {
        t.push(
            (
                k,
                put_value_spec(
                    AccountValue {
                        stored_total_size: 0u64,
                        lost_total_size: 0u64,
                        offered_space: DEFAULT_OFFERED_SPACE,
                    },
                    size,
                ),
            ),
        )
    } else {
        t.update(ki, (t[ki].0, put_value_spec(t[ki].1, size)))
    }
}

/// The table after a delete of `size` bytes against `k`.
pub open spec fn delete_data_spec(t: Seq<(Name, AccountValue)>, k: Name, size: u64) -> Seq<
    (Name, AccountValue),
> {
    let ki = key_index(t, k);
    if ki < 0 {
        t.push(
            (
                k,
                delete_value_spec(
                    AccountValue {
                        stored_total_size: 0u64,
                        lost_total_size: 0u64,
                        offered_space: DEFAULT_OFFERED_SPACE,
                    },
                    size,
                ),
            ),
        )
    } else {
        t.update(ki, (t[ki].0, delete_value_spec(t[ki].1, size)))
    }
}

/// The table after an authoritative transfer overwrote the entry for `k`.
pub open spec fn transfer_value_spec(t: Seq<(Name, AccountValue)>, k: Name, v: AccountValue) -> Seq<
    (Name, AccountValue),
> {
    let ki = key_index(t, k);
    if ki < 0 {
        t.push((k, v))
    } else {
        t.update(ki, (k, v))
    }
}

/// One refresh action per entry whose node is still in the close group;
/// out-of-scope entries are dropped without a refresh.
pub open spec fn drain_calls_spec(t: Seq<(Name, AccountValue)>, grp: Seq<Name>) -> Seq<
    MethodCallView,
>
    decreases t.len(),
{
    if t.len() == 0 {
        Seq::empty()
    } else {
        let rest = drain_calls_spec(t.drop_last(), grp);
        if grp.contains(t.last().0) {
            rest.push(
                MethodCallView::Refresh {
                    type_tag: PMID_MANAGER_ACCOUNT_TAG,
                    our_authority: Authority::NodeManager(t.last().0),
                    payload: encode_account_spec(Account { name: t.last().0, value: t.last().1 }),
                },
            )
        } else {
            rest
        }
    }
}

fn find_key(storage: &Vec<(Name, AccountValue)>, k: &Name) -> (r: Option<usize>)
    ensures
        match r {
            Some(i) => key_index(storage@, *k) == i,
            None => key_index(storage@, *k) < 0,
        },
{
    proof {
        lemma_key_index(storage@, *k);
    }
    let mut i: usize = 0;
    while i < storage.len()
        invariant
            0 <= i <= storage@.len(),
            forall|j: int| 0 <= j < i ==> storage@[j].0 != *k,
        decreases storage@.len() - i,
    {
        if storage[i].0 == *k {
            proof {
                lemma_key_index(storage@, *k);
                let ki = key_index(storage@, *k);
                assert(ki >= 0);
                assert(ki == i);
            }
            return Some(i);
        }
        i += 1;
    }
    None
}

impl PmidManagerDatabase {
    pub fn new() -> (r: PmidManagerDatabase)
        ensures
            r.storage@.len() == 0,
    {
        PmidManagerDatabase { storage: Vec::with_capacity(10000) }
    }

    /// Stores `size` bytes against `name`, creating the default account on
    /// first contact.  Always reports success: capacity is never enforced.
    pub fn put_data(&mut self, name: &Name, size: u64) -> (r: bool)
        requires
            key_index(old(self).storage@, *name) >= 0 ==> old(self).storage@[key_index(
                old(self).storage@,
                *name,
            )].1.stored_total_size + size <= u64::MAX,
        ensures
            r == true,
            final(self).storage@ == put_data_spec(old(self).storage@, *name, size),
    {
        proof {
            lemma_key_index(self.storage@, *name);
        }
        match find_key(&self.storage, name) {
            Some(i) => {
                let (key, mut value) = self.storage.remove(i);
                let r = value.put_data(size);
                self.storage.insert(i, (key, value));
                assert(final(self).storage@ =~= put_data_spec(old(self).storage@, *name, size));
                r
            },
            None => {
                let mut value: AccountValue = Default::default();
                let r = value.put_data(size);
                self.storage.push((*name, value));
                r
            },
        }
    }

    /// Deletes `size` bytes against `name`, creating the default account on
    /// first contact; the stored total clamps at zero.
    pub fn delete_data(&mut self, name: &Name, size: u64)
        ensures
            final(self).storage@ == delete_data_spec(old(self).storage@, *name, size),
    {
        proof {
            lemma_key_index(self.storage@, *name);
        }
        match find_key(&self.storage, name) {
            Some(i) => {
                let (key, mut value) = self.storage.remove(i);
                value.delete_data(size);
                self.storage.insert(i, (key, value));
                assert(final(self).storage@ =~= delete_data_spec(old(self).storage@, *name, size));
            },
            None => {
                let mut value: AccountValue = Default::default();
                value.delete_data(size);
                self.storage.push((*name, value));
            },
        }
    }

    /// Unconditionally overwrites the local entry with a record already
    /// merged (or singly authoritative) upstream.
    pub fn handle_account_transfer(&mut self, merged_account: Account)
        ensures
            final(self).storage@ == transfer_value_spec(
                old(self).storage@,
                merged_account.name,
                merged_account.value,
            ),
    {
        proof {
            lemma_key_index(self.storage@, merged_account.name);
        }
        match find_key(&self.storage, &merged_account.name) {
            Some(i) => {
                let _ = self.storage.remove(i);
                self.storage.insert(i, (merged_account.name, merged_account.value));
                assert(final(self).storage@ =~= transfer_value_spec(
                    old(self).storage@,
                    merged_account.name,
                    merged_account.value,
                ));
            },
            None => {
                self.storage.push((merged_account.name, merged_account.value));
            },
        }
    }

    /// Snapshots every entry whose node is still in `close_group` into one
    /// refresh action addressed to that node's managing authority, drops
    /// the rest, and clears the table; state is rebuilt from inbound
    /// refresh merges.
    pub fn retrieve_all_and_reset(&mut self, close_group: &Vec<Name>) -> (actions: Vec<MethodCall>)
        ensures
            final(self).storage@.len() == 0,
            calls_view(actions@) == drain_calls_spec(old(self).storage@, close_group@),
    {
        let mut actions: Vec<MethodCall> = Vec::new();
        let mut i: usize = 0;
        while i < self.storage.len()
            invariant
                0 <= i <= self.storage@.len(),
                self.storage@ == old(self).storage@,
                calls_view(actions@) == drain_calls_spec(
                    self.storage@.subrange(0, i as int),
                    close_group@,
                ),
            decreases self.storage@.len() - i,
        {
            let ghost prefix = self.storage@.subrange(0, i as int);
            let ghost next = self.storage@.subrange(0, i + 1);
            proof {
                assert(next.drop_last() =~= prefix);
                assert(next.last() == self.storage@[i as int]);
            }
            let key = self.storage[i].0;
            if contains_name(close_group, &key) {
                let account = Account::new(key, self.storage[i].1);
                let payload = account.serialised_contents();
                let call = MethodCall::Refresh {
                    type_tag: PMID_MANAGER_ACCOUNT_TAG,
                    our_authority: Authority::NodeManager(key),
                    payload,
                };
                proof {
                    lemma_calls_view_push(actions@, call);
                }
                actions.push(call);
            }
            i += 1;
        }
        proof {
            assert(self.storage@.subrange(0, self.storage@.len() as int) =~= self.storage@);
        }
        self.storage.clear();
        actions
    }
}

} // verus!
