//! Holder tracking: which nodes store a replica of each content item, with
//! the quorum-based reconciliation of divergent peer reports.

use vstd::prelude::*;

use crate::actions::{
    calls_view, lemma_calls_view_push, Authority, DataRequest, ImmutableDataType, MethodCall,
    MethodCallView, DATA_MANAGER_ACCOUNT_TAG,
};
use crate::codec::{
    copy_bytes, lemma_name_bytes_len, lemma_name_round_trip, name_bytes, name_from_bytes,
    push_bytes, push_name, push_u64_le, read_name, read_u64_le,
};
use crate::name::{contains_name, copy_names, count_eq, first_eq, key_index, lemma_count_eq,
    lemma_count_eq_push, lemma_first_eq, lemma_first_eq_push, lemma_key_index,
    lemma_strict_majority, names_eq, Name};

verus! {

/// Close-group size assumed by the quorum rule.
pub const GROUP_SIZE: u64 = 23;

/// The number of agreeing reports a holder set needs before it is accepted
/// as the merged record: a strict majority of the close group.
pub open spec fn quorum() -> int {
    ((GROUP_SIZE + 1) / 2) as int
}

/// One content item's replica record: the item's key and the nodes holding
/// a copy, in insertion order and without duplicates.  Where the record
/// arrived already serialised, the bytes are kept so they can be re-sent
/// verbatim instead of re-encoded.
#[derive(PartialEq, Eq, Debug)]
pub struct Account {
    pub name: Name,
    pub data_holders: Vec<Name>,
    pub preserialised_content: Vec<u8>,
    pub has_preserialised_content: bool,
}

/// The mathematical shape of a holder account.
pub struct AccountView {
    pub name: Name,
    pub data_holders: Seq<Name>,
    pub preserialised_content: Seq<u8>,
    pub has_preserialised_content: bool,
}

impl View for Account {
    type V = AccountView;

    open spec fn view(&self) -> AccountView {
        AccountView {
            name: self.name,
            data_holders: self.data_holders@,
            preserialised_content: self.preserialised_content@,
            has_preserialised_content: self.has_preserialised_content,
        }
    }
}

/// The concatenated identifier bytes of a holder list.
pub open spec fn names_bytes(s: Seq<Name>) -> Seq<u8>
    decreases s.len(),
{
    if s.len() == 0 {
        Seq::empty()
    } else {
        names_bytes(s.drop_last()) + name_bytes(s.last())
    }
}

/// The first `cnt` identifiers held in `b`, 64 bytes each.
pub open spec fn parse_names(b: Seq<u8>, cnt: int) -> Seq<Name>
    decreases cnt,
{
    if cnt <= 0 {
        Seq::empty()
    } else {
        parse_names(b, cnt - 1).push(name_from_bytes(b.subrange(64 * (cnt - 1), 64 * cnt)))
    }
}

/// The wire form of a holder account: key, holder count, the holders, the
/// pre-serialised flag, and the cached bytes with their length.
pub open spec fn encode_account_spec(a: AccountView) -> Seq<u8> {
    name_bytes(a.name) + vstd::bytes::spec_u64_to_le_bytes(a.data_holders.len() as u64)
        + names_bytes(a.data_holders) + seq![
        if a.has_preserialised_content {
            1u8
        } else {
            0u8
        },
    ] + vstd::bytes::spec_u64_to_le_bytes(a.preserialised_content.len() as u64)
        + a.preserialised_content
}

/// The holder account read back from its wire form, if well formed.
pub open spec fn decode_account_spec(b: Seq<u8>) -> Option<AccountView> {
    if b.len() < 72 {
        None
    } else {
        let cnt = vstd::bytes::spec_u64_from_le_bytes(b.subrange(64, 72)) as int;
        if b.len() < 72 + 64 * cnt + 9 {
            None
        } else {
            let off = 72 + 64 * cnt;
            let flag = b[off];
            let clen = vstd::bytes::spec_u64_from_le_bytes(b.subrange(off + 1, off + 9)) as int;
            if (flag != 0 && flag != 1) || b.len() != off + 9 + clen {
                None
            } else {
                Some(
                    AccountView {
                        name: name_from_bytes(b.subrange(0, 64)),
                        data_holders: parse_names(b.subrange(72, off), cnt),
                        has_preserialised_content: flag == 1,
                        preserialised_content: b.subrange(off + 9, b.len() as int),
                    },
                )
            }
        }
    }
}

proof fn lemma_names_bytes_len(s: Seq<Name>)
    ensures
        names_bytes(s).len() == 64 * s.len(),
    decreases s.len(),
{
    if s.len() > 0 {
        lemma_names_bytes_len(s.drop_last());
        lemma_name_bytes_len(s.last());
    }
}

proof fn lemma_parse_names_agree(b1: Seq<u8>, b2: Seq<u8>, cnt: int)
    requires
        cnt >= 0,
        64 * cnt <= b1.len(),
        64 * cnt <= b2.len(),
        b1.subrange(0, 64 * cnt) == b2.subrange(0, 64 * cnt),
    ensures
        parse_names(b1, cnt) == parse_names(b2, cnt),
    decreases cnt,
{
    if cnt > 0 {
        assert(b1.subrange(0, 64 * (cnt - 1)) =~= b1.subrange(0, 64 * cnt).subrange(
            0,
            64 * (cnt - 1),
        ));
        assert(b2.subrange(0, 64 * (cnt - 1)) =~= b2.subrange(0, 64 * cnt).subrange(
            0,
            64 * (cnt - 1),
        ));
        lemma_parse_names_agree(b1, b2, cnt - 1);
        assert(b1.subrange(64 * (cnt - 1), 64 * cnt) =~= b1.subrange(0, 64 * cnt).subrange(
            64 * (cnt - 1),
            64 * cnt,
        ));
        assert(b2.subrange(64 * (cnt - 1), 64 * cnt) =~= b2.subrange(0, 64 * cnt).subrange(
            64 * (cnt - 1),
            64 * cnt,
        ));
    }
}

proof fn lemma_parse_names_bytes(s: Seq<Name>)
    ensures
        parse_names(names_bytes(s), s.len() as int) == s,
    decreases s.len(),
{
    if s.len() > 0 {
        let b = names_bytes(s);
        let rest = names_bytes(s.drop_last());
        lemma_names_bytes_len(s);
        lemma_names_bytes_len(s.drop_last());
        lemma_name_bytes_len(s.last());
        let c = s.len() as int;
        assert(b.subrange(0, 64 * (c - 1)) =~= rest);
        assert(rest.subrange(0, 64 * (c - 1)) =~= rest);
        lemma_parse_names_agree(b, rest, c - 1);
        lemma_parse_names_bytes(s.drop_last());
        assert(b.subrange(64 * (c - 1), 64 * c) =~= name_bytes(s.last()));
        lemma_name_round_trip(s.last());
        assert(parse_names(b, c) =~= s);
    }
}

/// A holder account round-trips through its wire form unchanged, for any
/// holder list and cache that fit their length words.
pub proof fn lemma_account_round_trip(a: AccountView)
    requires
        a.data_holders.len() <= u64::MAX,
        a.preserialised_content.len() <= u64::MAX,
    ensures
        decode_account_spec(encode_account_spec(a)) == Some(a),
{
    vstd::bytes::lemma_auto_spec_u64_to_from_le_bytes();
    lemma_name_bytes_len(a.name);
    lemma_names_bytes_len(a.data_holders);
    let b = encode_account_spec(a);
    let cnt = a.data_holders.len() as int;
    let clen = a.preserialised_content.len() as int;
    let flag_byte = if a.has_preserialised_content {
        1u8
    } else {
        0u8
    };
    assert(b.len() == 64 + 8 + 64 * cnt + 1 + 8 + clen);
    assert(b.subrange(64, 72) =~= vstd::bytes::spec_u64_to_le_bytes(
        a.data_holders.len() as u64,
    ));
    let off = 72 + 64 * cnt;
    assert(b[off] == flag_byte);
    assert(b.subrange(off + 1, off + 9) =~= vstd::bytes::spec_u64_to_le_bytes(
        a.preserialised_content.len() as u64,
    ));
    assert(b.subrange(0, 64) =~= name_bytes(a.name));
    lemma_name_round_trip(a.name);
    assert(b.subrange(72, off) =~= names_bytes(a.data_holders));
    lemma_parse_names_bytes(a.data_holders);
    assert(b.subrange(off + 9, b.len() as int) =~= a.preserialised_content);
    let d = decode_account_spec(b)->Some_0;
    assert(d.name == a.name);
    assert(d.data_holders == a.data_holders);
    assert(d.has_preserialised_content == a.has_preserialised_content);
    assert(d.preserialised_content == a.preserialised_content);
}

impl Account {
    pub fn new(name: Name, data_holders: Vec<Name>) -> (r: Account)
        ensures
            r@ == (AccountView {
                name,
                data_holders: data_holders@,
                preserialised_content: Seq::<u8>::empty(),
                has_preserialised_content: false,
            }),
    {
        let r = Account {
            name,
            data_holders,
            preserialised_content: Vec::new(),
            has_preserialised_content: false,
        };
        proof {
            assert(r@.preserialised_content =~= Seq::<u8>::empty());
        }
        r
    }

    pub fn name(&self) -> (r: &Name)
        ensures
            *r == self.name,
    {
        &self.name
    }

    pub fn data_holders(&self) -> (r: &Vec<Name>)
        ensures
            r@ == self.data_holders@,
    {
        &self.data_holders
    }

    /// The account in its wire form.
    pub fn encode(&self) -> (r: Vec<u8>)
        ensures
            r@ == encode_account_spec(self@),
    {
        let mut out: Vec<u8> = Vec::new();
        push_name(&mut out, &self.name);
        push_u64_le(&mut out, self.data_holders.len() as u64);
        let mut i: usize = 0;
        while i < self.data_holders.len()
            invariant
                0 <= i <= self.data_holders@.len(),
                out@ == name_bytes(self.name) + vstd::bytes::spec_u64_to_le_bytes(
                    self.data_holders@.len() as u64,
                ) + names_bytes(self.data_holders@.subrange(0, i as int)),
            decreases self.data_holders@.len() - i,
        {
            let ghost prefix = self.data_holders@.subrange(0, i as int);
            let ghost next = self.data_holders@.subrange(0, i + 1);
            push_name(&mut out, &self.data_holders[i]);
            proof {
                assert(next.drop_last() =~= prefix);
                assert(next.last() == self.data_holders@[i as int]);
                assert(out@ =~= name_bytes(self.name) + vstd::bytes::spec_u64_to_le_bytes(
                    self.data_holders@.len() as u64,
                ) + names_bytes(next));
            }
            i += 1;
        }
        proof {
            assert(self.data_holders@.subrange(0, self.data_holders@.len() as int)
                =~= self.data_holders@);
        }
        if self.has_preserialised_content {
            out.push(1u8);
        } else {
            out.push(0u8);
        }
        push_u64_le(&mut out, self.preserialised_content.len() as u64);
        push_bytes(&mut out, &self.preserialised_content);
        assert(out@ =~= encode_account_spec(self@));
        out
    }

    /// The bytes this record is sent as: the cached serialised form where
    /// one was received, the freshly encoded account otherwise.
    pub fn serialised_contents(&self) -> (r: Vec<u8>)
        ensures
            r@ == serialised_spec(self@),
    {
        if self.has_preserialised_content {
            copy_bytes(&self.preserialised_content)
        } else {
            self.encode()
        }
    }

    /// The account read back from its wire form, or nothing if the bytes
    /// are malformed.
    pub fn decode(b: &Vec<u8>) -> (r: Option<Account>)
        ensures
            match r {
                Some(acc) => decode_account_spec(b@) == Some(acc@),
                None => decode_account_spec(b@) is None,
            },
    {
        let blen = b.len();
        if blen < 81 {
            return None;
        }
        let cnt64 = read_u64_le(b, 64);
        proof {
            vstd::arithmetic::div_mod::lemma_fundamental_div_mod((blen - 81) as int, 64);
        }
        let max_cnt = (blen - 81) / 64;
        if cnt64 > max_cnt as u64 {
            proof {
                let cnt = cnt64 as int;
                assert(64 * cnt > blen - 81);
                assert(b@.len() < 72 + 64 * cnt + 9);
            }
            return None;
        }
        let cnt = cnt64 as usize;
        proof {
            assert(64 * (cnt as int) <= blen - 81);
        }
        let mut holders: Vec<Name> = Vec::new();
        let ghost body = b@.subrange(72, 72 + 64 * (cnt as int));
        let mut i: usize = 0;
        while i < cnt
            invariant
                0 <= i <= cnt,
                64 * (cnt as int) <= blen - 81,
                blen == b@.len(),
                body == b@.subrange(72, 72 + 64 * (cnt as int)),
                holders@ == parse_names(body, i as int),
            decreases cnt - i,
        {
            let n = read_name(b, 72 + 64 * i);
            proof {
                assert(b@.subrange(72 + 64 * (i as int), 72 + 64 * (i as int) + 64)
                    =~= body.subrange(64 * (i as int), 64 * (i + 1)));
            }
            holders.push(n);
            i += 1;
        }
        let off = 72 + 64 * cnt;
        let flag = b[off];
        if flag > 1 {
            return None;
        }
        let clen64 = read_u64_le(b, off + 1);
        if clen64 != ((blen - off) - 9) as u64 {
            proof {
                let cl = clen64 as int;
                assert(b@.len() != 72 + 64 * (cnt as int) + 9 + cl);
            }
            return None;
        }
        let clen = blen - off - 9;
        let mut cache: Vec<u8> = Vec::new();
        let mut k: usize = 0;
        while k < clen
            invariant
                0 <= k <= clen,
                off + 9 + clen == blen,
                blen == b@.len(),
                cache@ == b@.subrange(off as int + 9, off as int + 9 + k),
            decreases clen - k,
        {
            cache.push(b[off + 9 + k]);
            assert(cache@ =~= b@.subrange(off as int + 9, off as int + 9 + k + 1));
            k += 1;
        }
        let name = read_name(b, 0);
        let acc = Account {
            name,
            data_holders: holders,
            preserialised_content: cache,
            has_preserialised_content: flag == 1,
        };
        proof {
            let spec_r = decode_account_spec(b@);
            assert(spec_r is Some);
            let d = spec_r->Some_0;
            assert(d.name == acc@.name);
            assert(d.data_holders == acc@.data_holders);
            assert(d.preserialised_content =~= acc@.preserialised_content);
            assert(d.has_preserialised_content == acc@.has_preserialised_content);
        }
        Some(acc)
    }
}

/// The bytes a record is sent as: its cache where flagged, its encoding
/// otherwise.
pub open spec fn serialised_spec(a: AccountView) -> Seq<u8> {
    if a.has_preserialised_content {
        a.preserialised_content
    } else {
        encode_account_spec(a)
    }
}

/// What a peer report stands for: the account its serialised bytes decode
/// to, or nothing if they are malformed.
pub open spec fn effective_report(a: AccountView) -> Option<AccountView> {
    decode_account_spec(serialised_spec(a))
}

/// The holder sets of the reports that decode and declare the expected key,
/// in batch order; malformed or mismatched reports are silently excluded.
pub open spec fn valid_holders(rs: Seq<Account>, g: Name) -> Seq<Seq<Name>>
    decreases rs.len(),
{
    if rs.len() == 0 {
        Seq::empty()
    } else {
        let rest = valid_holders(rs.drop_last(), g);
        match effective_report(rs.last()@) {
            Some(a) => if a.name == g {
                rest.push(a.data_holders)
            } else {
                rest
            },
            None => rest,
        }
    }
}

proof fn lemma_valid_holders_len(rs: Seq<Account>, g: Name)
    ensures
        valid_holders(rs, g).len() <= rs.len(),
    decreases rs.len(),
{
    if rs.len() > 0 {
        lemma_valid_holders_len(rs.drop_last(), g);
    }
}

fn find_stats(stats: &Vec<(Vec<Name>, u64)>, h: &Vec<Name>) -> (r: Option<usize>)
    ensures
        match r {
            Some(k) => k < stats@.len() && stats@[k as int].0@ == h@,
            None => forall|j: int| 0 <= j < stats@.len() ==> stats@[j].0@ != h@,
        },
{
    let mut k: usize = 0;
    while k < stats.len()
        invariant
            0 <= k <= stats@.len(),
            forall|j: int| 0 <= j < k ==> stats@[j].0@ != h@,
        decreases stats@.len() - k,
    {
        if names_eq(&stats[k].0, h) {
            return Some(k);
        }
        k += 1;
    }
    None
}

impl Account {
    /// Reconciles a batch of peer reports for the key `from_group` into one
    /// canonical record.  Reports that fail to decode or declare another key
    /// are discarded; the remaining holder sets are bucketed by exact value,
    /// and the set reported most often wins, the earliest-encountered bucket
    /// breaking ties.  The winner is accepted only when its count reaches a
    /// strict majority of the close group; otherwise there is no merge
    /// result, and an empty or wholly invalid batch is never turned into a
    /// fabricated account.
    pub fn merge(from_group: Name, responses: Vec<Account>) -> (r: Option<Account>)
        ensures
            ({
                let t = valid_holders(responses@, from_group);
                match r {
                    Some(acc) => {
                        &&& acc@.name == from_group
                        &&& acc@.has_preserialised_content == false
                        &&& acc@.preserialised_content == Seq::<u8>::empty()
                        &&& t.contains(acc@.data_holders)
                        &&& count_eq(t, acc@.data_holders) >= quorum()
                        &&& forall|h: Seq<Name>|
                            t.contains(h) ==> count_eq(t, h) <= count_eq(t, acc@.data_holders)
                        &&& forall|h: Seq<Name>|
                            t.contains(h) && h != acc@.data_holders && count_eq(t, h) == count_eq(
                                t,
                                acc@.data_holders,
                            ) ==> first_eq(t, acc@.data_holders) < first_eq(t, h)
                    },
                    None => forall|h: Seq<Name>| t.contains(h) ==> count_eq(t, h) < quorum(),
                }
            }),
    {
        let mut stats: Vec<(Vec<Name>, u64)> = Vec::new();
        let mut i: usize = 0;
        while i < responses.len()
            invariant
                0 <= i <= responses@.len(),
                ({
                    let t = valid_holders(responses@.subrange(0, i as int), from_group);
                    &&& t.len() <= i
                    &&& forall|k: int|
                        0 <= k < stats@.len() ==> t.contains(#[trigger] stats@[k].0@)
                            && stats@[k].1 == count_eq(t, stats@[k].0@)
                    &&& forall|h: Seq<Name>|
                        t.contains(h) ==> exists|k: int|
                            0 <= k < stats@.len() && #[trigger] stats@[k].0@ == h
                    &&& forall|k1: int, k2: int|
                        0 <= k1 < k2 < stats@.len() ==> stats@[k1].0@ != stats@[k2].0@
                    &&& forall|k1: int, k2: int|
                        0 <= k1 < k2 < stats@.len() ==> first_eq(t, stats@[k1].0@) < first_eq(
                            t,
                            stats@[k2].0@,
                        )
                }),
            decreases responses@.len() - i,
        {
            let ghost prefix = responses@.subrange(0, i as int);
            let ghost next = responses@.subrange(0, i + 1);
            let ghost t = valid_holders(prefix, from_group);
            let ghost t2 = valid_holders(next, from_group);
            proof {
                assert(next.drop_last() =~= prefix);
                assert(next.last() == responses@[i as int]);
            }
            let response = &responses[i];
            let bytes = response.serialised_contents();
            let dec = Account::decode(&bytes);
            match dec {
                Some(acc) => {
                    proof {
                        assert(effective_report(responses@[i as int]@) == Some(acc@));
                    }
                    if acc.name == from_group {
                        let ghost h = acc@.data_holders;
                        proof {
                            assert(t2 == t.push(h));
                            assert(t2.len() <= i + 1);
                        }
                        match find_stats(&stats, &acc.data_holders) {
                            Some(k) => {
                                let ghost old_stats = stats@;
                                proof {
                                    lemma_count_eq(t, h);
                                }
                                let (hv, c) = stats.remove(k);
                                stats.insert(k, (hv, c + 1));
                                proof {
                                    assert(stats@ =~= old_stats.update(
                                        k as int,
                                        (old_stats[k as int].0, (c + 1) as u64),
                                    ));
                                    lemma_count_eq_push(t, h, h);
                                    assert forall|k2: int|
                                        0 <= k2 < stats@.len() implies t2.contains(
                                        #[trigger] stats@[k2].0@,
                                    ) && stats@[k2].1 == count_eq(t2, stats@[k2].0@) by {
                                        let v = stats@[k2].0@;
                                        assert(t.contains(v));
                                        let wi = choose|wi: int|
                                            0 <= wi < t.len() && t[wi] == v;
                                        assert(t2[wi] == v);
                                        assert(t2.contains(v));
                                        lemma_count_eq_push(t, v, h);
                                        if k2 != k {
                                            assert(stats@[k2] == old_stats[k2]);
                                            assert(v != h);
                                        }
                                    }
                                    assert(t2.contains(h));
                                    assert forall|hh: Seq<Name>| t2.contains(hh) implies exists|
                                        k2: int,
                                    |
                                        0 <= k2 < stats@.len() && #[trigger] stats@[k2].0@
                                            == hh by {
                                        let wi = choose|wi: int|
                                            0 <= wi < t2.len() && t2[wi] == hh;
                                        if wi < t.len() {
                                            assert(t[wi] == hh);
                                            assert(t.contains(hh));
                                            let k2 = choose|k2: int|
                                                0 <= k2 < old_stats.len() && old_stats[k2].0@
                                                    == hh;
                                            assert(stats@[k2].0@ == hh);
                                        } else {
                                            assert(hh == h);
                                            assert(stats@[k as int].0@ == h);
                                        }
                                    }
                                    assert forall|k1: int, k2: int|
                                        0 <= k1 < k2 < stats@.len() implies first_eq(
                                        t2,
                                        stats@[k1].0@,
                                    ) < first_eq(t2, stats@[k2].0@) by {
                                        lemma_first_eq_push(t, stats@[k1].0@, h);
                                        lemma_first_eq_push(t, stats@[k2].0@, h);
                                        assert(t.contains(stats@[k1].0@));
                                        assert(t.contains(stats@[k2].0@));
                                    }
                                }
                            },
                            None => {
                                let ghost old_stats = stats@;
                                proof {
                                    if t.contains(h) {
                                        let k2 = choose|k2: int|
                                            0 <= k2 < old_stats.len() && old_stats[k2].0@ == h;
                                        assert(false);
                                    }
                                    lemma_count_eq(t, h);
                                    lemma_count_eq_push(t, h, h);
                                    lemma_first_eq_push(t, h, h);
                                }
                                let hv = copy_names(&acc.data_holders);
                                stats.push((hv, 1));
                                proof {
                                    assert(stats@ =~= old_stats.push((stats@[old_stats.len() as int].0, 1u64)));
                                    assert forall|k2: int|
                                        0 <= k2 < stats@.len() implies t2.contains(
                                        #[trigger] stats@[k2].0@,
                                    ) && stats@[k2].1 == count_eq(t2, stats@[k2].0@) by {
                                        let v = stats@[k2].0@;
                                        if k2 < old_stats.len() {
                                            assert(stats@[k2] == old_stats[k2]);
                                            assert(t.contains(v));
                                            let wi = choose|wi: int|
                                                0 <= wi < t.len() && t[wi] == v;
                                            assert(t2[wi] == v);
                                            lemma_count_eq_push(t, v, h);
                                            assert(v != h);
                                        } else {
                                            assert(v == h);
                                            assert(t2[t.len() as int] == h);
                                        }
                                    }
                                    assert forall|hh: Seq<Name>| t2.contains(hh) implies exists|
                                        k2: int,
                                    |
                                        0 <= k2 < stats@.len() && #[trigger] stats@[k2].0@
                                            == hh by {
                                        let wi = choose|wi: int|
                                            0 <= wi < t2.len() && t2[wi] == hh;
                                        if wi < t.len() {
                                            assert(t[wi] == hh);
                                            assert(t.contains(hh));
                                            let k2 = choose|k2: int|
                                                0 <= k2 < old_stats.len() && old_stats[k2].0@
                                                    == hh;
                                            assert(stats@[k2].0@ == hh);
                                        } else {
                                            assert(hh == h);
                                            assert(stats@[old_stats.len() as int].0@ == h);
                                        }
                                    }
                                    assert forall|k1: int, k2: int|
                                        0 <= k1 < k2 < stats@.len() implies first_eq(
                                        t2,
                                        stats@[k1].0@,
                                    ) < first_eq(t2, stats@[k2].0@) by {
                                        if k2 < old_stats.len() {
                                            lemma_first_eq_push(t, stats@[k1].0@, h);
                                            lemma_first_eq_push(t, stats@[k2].0@, h);
                                        } else {
                                            assert(stats@[k2].0@ == h);
                                            assert(t.contains(stats@[k1].0@));
                                            lemma_first_eq_push(t, stats@[k1].0@, h);
                                            lemma_first_eq(t, stats@[k1].0@);
                                            assert(first_eq(t2, stats@[k1].0@) < t.len());
                                        }
                                    }
                                }
                            },
                        }
                    } else {
                        proof {
                            assert(t2 == t);
                        }
                    }
                },
                None => {
                    proof {
                        assert(effective_report(responses@[i as int]@) is None);
                        assert(t2 == t);
                    }
                },
            }
            i += 1;
        }
        proof {
            assert(responses@.subrange(0, responses@.len() as int) =~= responses@);
        }
        let ghost t = valid_holders(responses@, from_group);
        if stats.len() == 0 {
            proof {
                assert forall|h: Seq<Name>| t.contains(h) implies count_eq(t, h) < quorum() by {
                    let k = choose|k: int| 0 <= k < stats@.len() && stats@[k].0@ == h;
                }
            }
            return None;
        }
        let mut m: usize = 0;
        let mut k: usize = 1;
        while k < stats.len()
            invariant
                1 <= k <= stats@.len(),
                0 <= m < k,
                forall|j: int| 0 <= j < k ==> stats@[j].1 <= stats@[m as int].1,
                forall|j: int| 0 <= j < m ==> stats@[j].1 < stats@[m as int].1,
            decreases stats@.len() - k,
        {
            if stats[k].1 > stats[m].1 {
                m = k;
            }
            k += 1;
        }
        let q = (GROUP_SIZE + 1) / 2;
        let ghost w = stats@[m as int].0@;
        if stats[m].1 >= q {
            let holders = copy_names(&stats[m].0);
            let result = Account::new(from_group, holders);
            proof {
                assert(t.contains(w));
                assert(count_eq(t, w) >= quorum());
                assert forall|h: Seq<Name>| t.contains(h) implies count_eq(t, h) <= count_eq(
                    t,
                    w,
                ) by {
                    let kk = choose|kk: int| 0 <= kk < stats@.len() && stats@[kk].0@ == h;
                    assert(stats@[kk].1 <= stats@[m as int].1);
                }
                assert forall|h: Seq<Name>|
                    t.contains(h) && h != w && count_eq(t, h) == count_eq(t, w) implies first_eq(
                    t,
                    w,
                ) < first_eq(t, h) by {
                    let kk = choose|kk: int| 0 <= kk < stats@.len() && stats@[kk].0@ == h;
                    assert(kk != m);
                    if kk < m {
                        assert(stats@[kk].1 < stats@[m as int].1);
                        assert(false);
                    }
                }
            }
            Some(result)
        } else {
            proof {
                assert forall|h: Seq<Name>| t.contains(h) implies count_eq(t, h) < quorum() by {
                    let kk = choose|kk: int| 0 <= kk < stats@.len() && stats@[kk].0@ == h;
                    assert(stats@[kk].1 <= stats@[m as int].1);
                }
            }
            None
        }
    }
}

/// A content item with this many holders needs no repair fetch during a
/// churn drain.
pub const FULL_REPLICATION: usize = 3;

/// The authoritative local map from content key to its holder list, plus
/// the scratch state a churn leaves behind: the last close group seen and
/// a snapshot of the pre-churn table, kept so in-flight repair decisions
/// can still consult the old view.
pub struct Database {
    pub storage: Vec<(Name, Vec<Name>)>,
    pub close_grp_from_churn: Vec<Name>,
    pub temp_storage_after_churn: Vec<(Name, Vec<Name>)>,
}

/// The mathematical shape of a holder table: key and holder sequence pairs.
pub open spec fn table(s: Seq<(Name, Vec<Name>)>) -> Seq<(Name, Seq<Name>)> {
    s.map(|i: int, e: (Name, Vec<Name>)| (e.0, e.1@))
}

/// Whether the table holds an entry for `k`.
pub open spec fn has_key(t: Seq<(Name, Seq<Name>)>, k: Name) -> bool {
    key_index(t, k) >= 0
}

/// The holders recorded for `k`, or the empty sequence if `k` is absent.
pub open spec fn holders_of(t: Seq<(Name, Seq<Name>)>, k: Name) -> Seq<Name> {
    if has_key(t, k) {
        t[key_index(t, k)].1
    } else {
        Seq::empty()
    }
}

/// The table after `set`: inserted only if `k` was absent (first-writer
/// rule), never overwriting.
pub open spec fn put_nodes_spec(t: Seq<(Name, Seq<Name>)>, k: Name, hs: Seq<Name>) -> Seq<
    (Name, Seq<Name>),
> {
    if has_key(t, k) {
        t
    } else {
        t.push((k, hs))
    }
}

/// The table after an idempotent add: an absent key is seeded with the one
/// holder; a holder already present is not appended again.
pub open spec fn add_node_spec(t: Seq<(Name, Seq<Name>)>, k: Name, n: Name) -> Seq<
    (Name, Seq<Name>),
> {
    let ki = key_index(t, k);
    if ki < 0 {
        t.push((k, seq![n]))
    } else if t[ki].1.contains(n) {
        t
    } else {
        t.update(ki, (t[ki].0, t[ki].1.push(n)))
    }
}

/// The table after removing the first occurrence of `n` under `k`: a no-op
/// if either is absent.
pub open spec fn remove_node_spec(t: Seq<(Name, Seq<Name>)>, k: Name, n: Name) -> Seq<
    (Name, Seq<Name>),
> {
    let ki = key_index(t, k);
    if ki < 0 {
        t
    } else {
        let j = first_eq(t[ki].1, n);
        if j < 0 {
            t
        } else {
            t.update(ki, (t[ki].0, t[ki].1.remove(j)))
        }
    }
}

/// The table after an authoritative transfer overwrote the entry for `k`.
pub open spec fn transfer_spec(t: Seq<(Name, Seq<Name>)>, k: Name, hs: Seq<Name>) -> Seq<
    (Name, Seq<Name>),
> {
    let ki = key_index(t, k);
    if ki < 0 {
        t.push((k, hs))
    } else {
        t.update(ki, (k, hs))
    }
}

fn find_entry(storage: &Vec<(Name, Vec<Name>)>, k: &Name) -> (r: Option<usize>)
    ensures
        match r {
            Some(i) => key_index(table(storage@), *k) == i && i < storage@.len(),
            None => key_index(table(storage@), *k) < 0,
        },
{
    proof {
        lemma_key_index(table(storage@), *k);
    }
    let mut i: usize = 0;
    while i < storage.len()
        invariant
            0 <= i <= storage@.len(),
            forall|j: int| 0 <= j < i ==> table(storage@)[j].0 != *k,
        decreases storage@.len() - i,
    {
        if storage[i].0 == *k {
            proof {
                lemma_key_index(table(storage@), *k);
                assert(table(storage@)[i as int].0 == *k);
            }
            return Some(i);
        }
        i += 1;
    }
    None
}

impl Database {
    pub fn new() -> (r: Database)
        ensures
            r.storage@.len() == 0,
            r.close_grp_from_churn@.len() == 0,
            r.temp_storage_after_churn@.len() == 0,
    {
        Database {
            storage: Vec::with_capacity(10000),
            close_grp_from_churn: Vec::new(),
            temp_storage_after_churn: Vec::new(),
        }
    }

    /// Whether a holder record exists for `name`.
    pub fn exist(&mut self, name: &Name) -> (r: bool)
        ensures
            r == has_key(table(old(self).storage@), *name),
            *final(self) == *old(self),
    {
        match find_entry(&self.storage, name) {
            Some(_) => true,
            None => false,
        }
    }

    /// Records `pmid_nodes` as the holders of `name` only if `name` is
    /// absent; an existing record is kept (first-writer rule).
    pub fn put_pmid_nodes(&mut self, name: &Name, pmid_nodes: Vec<Name>)
        ensures
            table(final(self).storage@) == put_nodes_spec(
                table(old(self).storage@),
                *name,
                pmid_nodes@,
            ),
            final(self).close_grp_from_churn == old(self).close_grp_from_churn,
            final(self).temp_storage_after_churn == old(self).temp_storage_after_churn,
    {
        match find_entry(&self.storage, name) {
            Some(_) => {},
            None => {
                self.storage.push((*name, pmid_nodes));
                assert(table(self.storage@) =~= table(old(self).storage@).push(
                    (*name, pmid_nodes@),
                ));
            },
        }
    }

    /// Adds `pmid_node` as a holder of `name`: an absent key is seeded with
    /// this single holder, and adding a holder twice changes nothing.
    pub fn add_pmid_node(&mut self, name: &Name, pmid_node: Name)
        ensures
            table(final(self).storage@) == add_node_spec(
                table(old(self).storage@),
                *name,
                pmid_node,
            ),
            final(self).close_grp_from_churn == old(self).close_grp_from_churn,
            final(self).temp_storage_after_churn == old(self).temp_storage_after_churn,
    {
        match find_entry(&self.storage, name) {
            Some(i) => {
                if !contains_name(&self.storage[i].1, &pmid_node) {
                    let ghost t0 = table(self.storage@);
                    let (key, mut nodes) = self.storage.remove(i);
                    nodes.push(pmid_node);
                    self.storage.insert(i, (key, nodes));
                    assert(table(self.storage@) =~= t0.update(
                        i as int,
                        (t0[i as int].0, t0[i as int].1.push(pmid_node)),
                    ));
                }
            },
            None => {
                let nodes: Vec<Name> = vec![pmid_node];
                assert(nodes@ =~= seq![pmid_node]);
                self.storage.push((*name, nodes));
                assert(table(self.storage@) =~= table(old(self).storage@).push(
                    (*name, seq![pmid_node]),
                ));
            },
        }
    }

    /// Removes the first occurrence of `pmid_node` from the holders of
    /// `name`; an absent key or holder leaves the table untouched.
    pub fn remove_pmid_node(&mut self, name: &Name, pmid_node: Name)
        ensures
            table(final(self).storage@) == remove_node_spec(
                table(old(self).storage@),
                *name,
                pmid_node,
            ),
            final(self).close_grp_from_churn == old(self).close_grp_from_churn,
            final(self).temp_storage_after_churn == old(self).temp_storage_after_churn,
    {
        match find_entry(&self.storage, name) {
            Some(i) => {
                let ghost t0 = table(self.storage@);
                let ghost hs = t0[i as int].1;
                proof {
                    lemma_first_eq(hs, pmid_node);
                }
                let nlen = self.storage[i].1.len();
                let mut j: usize = 0;
                while j < nlen
                    invariant
                        0 <= j <= hs.len(),
                        nlen == hs.len(),
                        i < self.storage@.len(),
                        *self == *old(self),
                        t0 == table(self.storage@),
                        hs == table(self.storage@)[i as int].1,
                        key_index(t0, *name) == i,
                        forall|p: int| 0 <= p < j ==> hs[p] != pmid_node,
                    decreases hs.len() - j,
                {
                    if self.storage[i].1[j] == pmid_node {
                        proof {
                            lemma_first_eq(hs, pmid_node);
                            assert(hs[j as int] == pmid_node);
                            assert(hs.contains(pmid_node));
                            let f = first_eq(hs, pmid_node);
                            assert(f >= 0);
                            if f < j {
                                assert(hs[f] != pmid_node);
                            }
                            assert(first_eq(hs, pmid_node) == j);
                        }
                        let ghost pre = self.storage@;
                        let (key, mut nodes) = self.storage.remove(i);
                        let _ = nodes.remove(j);
                        let ghost nv = nodes@;
                        self.storage.insert(i, (key, nodes));
                        proof {
                            assert(nv == hs.remove(j as int));
                            let goal = t0.update(i as int, (t0[i as int].0, hs.remove(j as int)));
                            assert(self.storage@.len() == pre.len());
                            assert forall|p: int|
                                0 <= p < pre.len() implies table(self.storage@)[p] == goal[p] by {
                                if p < i {
                                    assert(self.storage@[p] == pre[p]);
                                } else if p == i {
                                    assert(self.storage@[p].0 == key);
                                    assert(self.storage@[p].1@ == nv);
                                } else {
                                    assert(self.storage@[p] == pre.remove(i as int)[p - 1]);
                                    assert(pre.remove(i as int)[p - 1] == pre[p]);
                                }
                            }
                            assert(table(self.storage@) =~= goal);
                        }
                        return;
                    }
                    j += 1;
                }
                proof {
                    assert(first_eq(hs, pmid_node) < 0);
                }
            },
            None => {},
        }
    }

    /// A copy of the holders of `name`, or an empty list if absent.
    pub fn get_pmid_nodes(&mut self, name: &Name) -> (r: Vec<Name>)
        ensures
            r@ == holders_of(table(old(self).storage@), *name),
            *final(self) == *old(self),
    {
        match find_entry(&self.storage, name) {
            Some(i) => copy_names(&self.storage[i].1),
            None => Vec::new(),
        }
    }

    /// Unconditionally overwrites the record for the account's key with its
    /// holder set: the account arrived already merged or authoritative.
    pub fn handle_account_transfer(&mut self, merged_account: Account)
        ensures
            table(final(self).storage@) == transfer_spec(
                table(old(self).storage@),
                merged_account.name,
                merged_account.data_holders@,
            ),
            final(self).close_grp_from_churn == old(self).close_grp_from_churn,
            final(self).temp_storage_after_churn == old(self).temp_storage_after_churn,
    {
        let ghost t0 = table(self.storage@);
        match find_entry(&self.storage, &merged_account.name) {
            Some(i) => {
                let _ = self.storage.remove(i);
                self.storage.insert(i, (merged_account.name, merged_account.data_holders));
                assert(table(self.storage@) =~= t0.update(
                    i as int,
                    (merged_account.name, merged_account.data_holders@),
                ));
            },
            None => {
                self.storage.push((merged_account.name, merged_account.data_holders));
                assert(table(self.storage@) =~= t0.push(
                    (merged_account.name, merged_account.data_holders@),
                ));
            },
        }
    }
}

/// The repair fetch asking `n` to re-supply the item under `k`.
pub open spec fn get_call(k: Name, n: Name) -> MethodCallView {
    MethodCallView::Get {
        location: Authority::ManagedNode(n),
        data_request: DataRequest::ImmutableData(k, ImmutableDataType::Normal),
    }
}

/// The refresh carrying one entry's account to the key's owning group.
pub open spec fn refresh_call(e: (Name, Seq<Name>)) -> MethodCallView {
    MethodCallView::Refresh {
        type_tag: DATA_MANAGER_ACCOUNT_TAG,
        our_authority: Authority::NaeManager(e.0),
        payload: encode_account_spec(
            AccountView {
                name: e.0,
                data_holders: e.1,
                preserialised_content: Seq::empty(),
                has_preserialised_content: false,
            },
        ),
    }
}

/// The repair fetches for one entry: one per remaining holder, but only
/// while the entry is under-replicated.
pub open spec fn gets_for(e: (Name, Seq<Name>)) -> Seq<MethodCallView> {
    if e.1.len() < FULL_REPLICATION {
        Seq::new(e.1.len(), |q: int| get_call(e.0, e.1[q]))
    } else {
        Seq::empty()
    }
}

/// Everything one entry contributes to a churn drain: its repair fetches,
/// then its refresh.
pub open spec fn entry_calls(e: (Name, Seq<Name>)) -> Seq<MethodCallView> {
    gets_for(e).push(refresh_call(e))
}

/// The actions a churn drain emits, table order preserved.
pub open spec fn drain_calls_spec(t: Seq<(Name, Seq<Name>)>) -> Seq<MethodCallView>
    decreases t.len(),
{
    if t.len() == 0 {
        Seq::empty()
    } else {
        drain_calls_spec(t.drop_last()) + entry_calls(t.last())
    }
}

fn copy_table(v: &Vec<(Name, Vec<Name>)>) -> (r: Vec<(Name, Vec<Name>)>)
    ensures
        table(r@) == table(v@),
{
    let mut r: Vec<(Name, Vec<Name>)> = Vec::new();
    let mut i: usize = 0;
    while i < v.len()
        invariant
            0 <= i <= v@.len(),
            table(r@) == table(v@).subrange(0, i as int),
        decreases v@.len() - i,
    {
        let copied = copy_names(&v[i].1);
        let ghost cv = copied@;
        let ghost r0 = r@;
        r.push((v[i].0, copied));
        proof {
            assert(cv == v@[i as int].1@);
            assert(table(r0).len() == r0.len());
            assert(r0.len() == i);
            assert forall|p: int| 0 <= p < i + 1 implies table(r@)[p] == table(v@).subrange(
                0,
                i + 1,
            )[p] by {
                if p < i {
                    assert(r@[p] == r0[p]);
                    assert(table(r0)[p] == table(v@).subrange(0, i as int)[p]);
                } else {
                    assert(r@[p].0 == v@[i as int].0);
                    assert(r@[p].1@ == cv);
                }
            }
            assert(table(r@) =~= table(v@).subrange(0, i + 1));
        }
        i += 1;
    }
    assert(table(v@).subrange(0, v@.len() as int) =~= table(v@));
    r
}

impl Database {
    /// The churn re-bootstrap: snapshots the whole table into the scratch
    /// slot, emits a repair fetch per remaining holder of every
    /// under-replicated entry and one refresh per entry carrying this
    /// node's account, then clears the table; state is rebuilt from the
    /// refresh merges that arrive from the rest of the group.
    pub fn retrieve_all_and_reset(&mut self, _close_group: &mut Vec<Name>) -> (actions: Vec<
        MethodCall,
    >)
        ensures
            final(self).storage@.len() == 0,
            table(final(self).temp_storage_after_churn@) == table(old(self).storage@),
            final(self).close_grp_from_churn == old(self).close_grp_from_churn,
            *final(_close_group) == *old(_close_group),
            calls_view(actions@) == drain_calls_spec(table(old(self).storage@)),
    {
        let ghost tt = table(self.storage@);
        let snapshot = copy_table(&self.storage);
        self.temp_storage_after_churn = snapshot;
        let mut actions: Vec<MethodCall> = Vec::new();
        let mut i: usize = 0;
        while i < self.storage.len()
            invariant
                0 <= i <= self.storage@.len(),
                self.storage@ == old(self).storage@,
                self.close_grp_from_churn == old(self).close_grp_from_churn,
                table(self.temp_storage_after_churn@) == tt,
                tt == table(old(self).storage@),
                *_close_group == *old(_close_group),
                calls_view(actions@) == drain_calls_spec(tt.subrange(0, i as int)),
            decreases self.storage@.len() - i,
        {
            let ghost prefix = tt.subrange(0, i as int);
            let ghost next = tt.subrange(0, i + 1);
            proof {
                assert(next.drop_last() =~= prefix);
                assert(next.last() == tt[i as int]);
            }
            let key = self.storage[i].0;
            let hlen = self.storage[i].1.len();
            if hlen < FULL_REPLICATION {
                let mut p: usize = 0;
                while p < hlen
                    invariant
                        0 <= p <= hlen,
                        0 <= i < self.storage@.len(),
                        self.storage@ == old(self).storage@,
                        self.close_grp_from_churn == old(self).close_grp_from_churn,
                        table(self.temp_storage_after_churn@) == tt,
                        tt == table(old(self).storage@),
                        *_close_group == *old(_close_group),
                        key == tt[i as int].0,
                        hlen == tt[i as int].1.len(),
                        hlen < FULL_REPLICATION,
                        calls_view(actions@) == drain_calls_spec(prefix) + Seq::new(
                            p as nat,
                            |q: int| get_call(key, tt[i as int].1[q]),
                        ),
                    decreases hlen - p,
                {
                    let node = self.storage[i].1[p];
                    let call = MethodCall::Get {
                        location: Authority::ManagedNode(node),
                        data_request: DataRequest::ImmutableData(key, ImmutableDataType::Normal),
                    };
                    proof {
                        lemma_calls_view_push(actions@, call);
                    }
                    actions.push(call);
                    proof {
                        assert(calls_view(actions@) =~= drain_calls_spec(prefix) + Seq::new(
                            (p + 1) as nat,
                            |q: int| get_call(key, tt[i as int].1[q]),
                        ));
                    }
                    p += 1;
                }
                proof {
                    assert(Seq::new(hlen as nat, |q: int| get_call(key, tt[i as int].1[q]))
                        =~= gets_for(tt[i as int]));
                }
            } else {
                proof {
                    assert(calls_view(actions@) =~= drain_calls_spec(prefix) + gets_for(
                        tt[i as int],
                    ));
                }
            }
            let account = Account::new(key, copy_names(&self.storage[i].1));
            let payload = account.encode();
            let call = MethodCall::Refresh {
                type_tag: DATA_MANAGER_ACCOUNT_TAG,
                our_authority: Authority::NaeManager(key),
                payload,
            };
            proof {
                lemma_calls_view_push(actions@, call);
                assert(call@ == refresh_call(tt[i as int]));
            }
            actions.push(call);
            proof {
                assert(calls_view(actions@) =~= drain_calls_spec(prefix) + entry_calls(
                    tt[i as int],
                ));
                assert(drain_calls_spec(next) == drain_calls_spec(prefix) + entry_calls(
                    tt[i as int],
                ));
            }
            i += 1;
        }
        proof {
            assert(tt.subrange(0, tt.len() as int) =~= tt);
        }
        self.storage.clear();
        actions
    }
}

/// The first-writer rule: setting holders for an absent key records them,
/// and a second set for the same key changes nothing.
pub proof fn lemma_put_nodes_first_writer(
    t: Seq<(Name, Seq<Name>)>,
    k: Name,
    hs: Seq<Name>,
    hs2: Seq<Name>,
)
    ensures
        !has_key(t, k) ==> has_key(put_nodes_spec(t, k, hs), k) && holders_of(
            put_nodes_spec(t, k, hs),
            k,
        ) == hs,
        put_nodes_spec(put_nodes_spec(t, k, hs), k, hs2) == put_nodes_spec(t, k, hs),
{
    lemma_key_index(t, k);
    if !has_key(t, k) {
        lemma_key_index_push_fresh(t, k, hs);
    }
}

/// Adding the same holder twice yields the same table as adding it once.
pub proof fn lemma_add_node_idempotent(t: Seq<(Name, Seq<Name>)>, k: Name, n: Name)
    ensures
        add_node_spec(add_node_spec(t, k, n), k, n) == add_node_spec(t, k, n),
{
    lemma_key_index(t, k);
    let t1 = add_node_spec(t, k, n);
    let ki = key_index(t, k);
    if ki < 0 {
        lemma_key_index_push_fresh(t, k, seq![n]);
        assert(t1[key_index(t1, k)].1.contains(n)) by {
            assert(t1[key_index(t1, k)].1[0] == n);
        }
    } else if t[ki].1.contains(n) {
    } else {
        lemma_key_index_update(t, k, (t[ki].0, t[ki].1.push(n)));
        assert(t1[key_index(t1, k)].1.contains(n)) by {
            assert(t1[ki].1[t[ki].1.len() as int] == n);
        }
    }
}

/// Removing under an absent key, or removing an absent holder, changes
/// nothing; removing a present holder shrinks that entry by exactly its
/// first occurrence and touches nothing else.
pub proof fn lemma_remove_node(t: Seq<(Name, Seq<Name>)>, k: Name, n: Name)
    ensures
        !has_key(t, k) ==> remove_node_spec(t, k, n) == t,
        has_key(t, k) && !holders_of(t, k).contains(n) ==> remove_node_spec(t, k, n) == t,
        has_key(t, k) && holders_of(t, k).contains(n) ==> {
            let ki = key_index(t, k);
            let j = first_eq(t[ki].1, n);
            &&& holders_of(remove_node_spec(t, k, n), k) == t[ki].1.remove(j)
            &&& holders_of(remove_node_spec(t, k, n), k).len() == holders_of(t, k).len() - 1
            &&& forall|i: int|
                0 <= i < t.len() && i != ki ==> remove_node_spec(t, k, n)[i] == t[i]
        },
{
    lemma_key_index(t, k);
    let ki = key_index(t, k);
    if ki >= 0 {
        lemma_first_eq(t[ki].1, n);
        let j = first_eq(t[ki].1, n);
        if j >= 0 {
            lemma_key_index_update(t, k, (t[ki].0, t[ki].1.remove(j)));
        }
    }
}

/// After an authoritative transfer the recorded holders are exactly the
/// transferred ones; in particular an empty transfer empties the record.
pub proof fn lemma_transfer_overwrites(t: Seq<(Name, Seq<Name>)>, k: Name, hs: Seq<Name>)
    ensures
        has_key(transfer_spec(t, k, hs), k),
        holders_of(transfer_spec(t, k, hs), k) == hs,
{
    lemma_key_index(t, k);
    let ki = key_index(t, k);
    if ki < 0 {
        lemma_key_index_push_fresh(t, k, hs);
    } else {
        lemma_key_index_update(t, k, (k, hs));
    }
}

proof fn lemma_key_index_push_fresh(t: Seq<(Name, Seq<Name>)>, k: Name, hs: Seq<Name>)
    requires
        key_index(t, k) < 0,
    ensures
        key_index(t.push((k, hs)), k) == t.len(),
    decreases t.len(),
{
    lemma_key_index(t, k);
    if t.len() == 0 {
        assert(t.push((k, hs))[0].0 == k);
    } else {
        assert(t[0].0 != k);
        assert(t.push((k, hs))[0] == t[0]);
        assert(key_index(t.drop_first(), k) < 0) by {
            lemma_key_index(t.drop_first(), k);
            assert(forall|i: int|
                0 <= i < t.drop_first().len() ==> t.drop_first()[i] == t[i + 1]);
        }
        lemma_key_index_push_fresh(t.drop_first(), k, hs);
        assert(t.push((k, hs)).drop_first() =~= t.drop_first().push((k, hs)));
    }
}

proof fn lemma_key_index_update(t: Seq<(Name, Seq<Name>)>, k: Name, e: (Name, Seq<Name>))
    requires
        key_index(t, k) >= 0,
        e.0 == k,
    ensures
        key_index(t.update(key_index(t, k), e), k) == key_index(t, k),
    decreases t.len(),
{
    lemma_key_index(t, k);
    let ki = key_index(t, k);
    if t[0].0 == k {
    } else {
        assert(t.update(ki, e)[0] == t[0]);
        assert(key_index(t.drop_first(), k) == ki - 1) by {
            lemma_key_index(t.drop_first(), k);
        }
        lemma_key_index_update(t.drop_first(), k, e);
        assert(t.update(ki, e).drop_first() =~= t.drop_first().update(ki - 1, e));
    }
}

/// A holder set reported by a strict majority of the valid reports is the
/// one the quorum rule accepts, provided it reaches the quorum itself: no
/// other set can match its count, so it wins every comparison the merge
/// performs.
pub proof fn lemma_majority_wins(t: Seq<Seq<Name>>, h: Seq<Name>, w: Seq<Name>)
    requires
        2 * count_eq(t, h) > t.len(),
        t.contains(w),
        forall|h2: Seq<Name>| t.contains(h2) ==> count_eq(t, h2) <= count_eq(t, w),
    ensures
        w == h,
{
    if w != h {
        lemma_strict_majority(t, h, w);
        lemma_count_eq(t, h);
        assert(count_eq(t, h) > 0);
        assert(t.contains(h));
        assert(count_eq(t, h) <= count_eq(t, w));
    }
}

} // verus!
