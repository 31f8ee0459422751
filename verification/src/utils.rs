//! Numeric consensus: the lower-biased median of a batch of counters.

use vstd::prelude::*;
use vstd::relations::sorted_by;
use vstd::seq_lib::lemma_sorted_unique;

use crate::name::Name;

verus! {

/// The ordering by which counter batches are sorted.
pub open spec fn u64_leq() -> spec_fn(u64, u64) -> bool {
    |x: u64, y: u64| x <= y
}

pub proof fn lemma_u64_leq_total()
    ensures
        vstd::relations::total_ordering(u64_leq()),
{
}

/// `s` rearranged into ascending order.
pub open spec fn sorted_u64(s: Seq<u64>) -> Seq<u64> {
    s.sort_by(u64_leq())
}

/// The median of an unordered batch: 0 for an empty batch, the middle value
/// for an odd count, and the floor of the average of the two middle values
/// for an even count.
pub open spec fn median_spec(s: Seq<u64>) -> u64 {
    if s.len() == 0 {
        0u64
    } else {
        let t = sorted_u64(s);
        let m = s.len() as int / 2;
        if s.len() % 2 == 1 {
            t[m]
        } else {
            ((t[m - 1] + t[m]) / 2) as u64
        }
    }
}

/// The least value in a non-empty batch.
pub open spec fn seq_min_u64(s: Seq<u64>) -> u64
    recommends
        s.len() > 0,
    decreases s.len(),
{
    if s.len() <= 1 {
        s[0]
    } else if s.last() <= seq_min_u64(s.drop_last()) {
        s.last()
    } else {
        seq_min_u64(s.drop_last())
    }
}

/// The greatest value in a non-empty batch.
pub open spec fn seq_max_u64(s: Seq<u64>) -> u64
    recommends
        s.len() > 0,
    decreases s.len(),
{
    if s.len() <= 1 {
        s[0]
    } else if s.last() >= seq_max_u64(s.drop_last()) {
        s.last()
    } else {
        seq_max_u64(s.drop_last())
    }
}

proof fn lemma_min_max_bound_elements(s: Seq<u64>)
    requires
        s.len() > 0,
    ensures
        forall|i: int| 0 <= i < s.len() ==> seq_min_u64(s) <= s[i] && s[i] <= seq_max_u64(s),
    decreases s.len(),
{
    if s.len() > 1 {
        lemma_min_max_bound_elements(s.drop_last());
        assert(forall|i: int| 0 <= i < s.len() - 1 ==> s[i] == s.drop_last()[i]);
    }
}

/// Sorts a batch of counters in place.
fn sort_u64(v: &mut Vec<u64>)
    ensures
        sorted_by(final(v)@, u64_leq()),
        final(v)@.to_multiset() == old(v)@.to_multiset(),
        final(v)@.len() == old(v)@.len(),
{
    broadcast use vstd::seq_lib::group_to_multiset_ensures;

    if v.len() <= 1 {
        return;
    }
    let mut i: usize = 1;
    while i < v.len()
        invariant
            1 <= i <= v@.len(),
            v@.len() == old(v)@.len(),
            v@.to_multiset() == old(v)@.to_multiset(),
            sorted_by(v@.subrange(0, i as int), u64_leq()),
        decreases v@.len() - i,
    {
        let x = v[i];
        let mut j = i;
        while j > 0 && v[j - 1] > x
            invariant
                0 <= j <= i < v@.len(),
                x == v@[i as int],
                sorted_by(v@.subrange(0, i as int), u64_leq()),
                forall|k: int| j <= k < i ==> v@[k] > x,
            decreases j,
        {
            j -= 1;
        }
        let ghost pre = v@;
        let ghost ms = v@.to_multiset();
        let y = v.remove(i);
        v.insert(j, y);
        proof {
            broadcast use vstd::multiset::group_multiset_axioms;

            assert(v@ == pre.remove(i as int).insert(j as int, x));
            vstd::seq_lib::to_multiset_insert(pre.remove(i as int), j as int, x);
            vstd::seq_lib::to_multiset_remove(pre, i as int);
            assert(pre.remove(i as int).insert(j as int, x).to_multiset() == pre.remove(
                i as int,
            ).to_multiset().insert(x));
            assert(pre.remove(i as int).to_multiset() == pre.to_multiset().remove(pre[i as int]));
            assert(pre[i as int] == x);
            assert(pre.contains(x));
            vstd::seq_lib::to_multiset_contains(pre, x);
            assert(ms.count(x) > 0);
            assert(v@.to_multiset() =~= ms);
            assert(forall|p0: int, q0: int| 0 <= p0 < q0 < i ==> pre[p0] <= pre[q0]) by {
                assert forall|p0: int, q0: int| 0 <= p0 < q0 < i implies pre[p0] <= pre[q0] by {
                    let sub = pre.subrange(0, i as int);
                    assert(u64_leq()(sub[p0], sub[q0]));
                    assert(sub[p0] == pre[p0] && sub[q0] == pre[q0]);
                }
            }
            assert(forall|k: int| 0 <= k < j ==> v@[k] == pre[k]);
            assert(v@[j as int] == x);
            assert(forall|k: int| j < k <= i ==> v@[k] == pre[k - 1]);
            assert forall|p: int, q: int| 0 <= p < q < i + 1 implies u64_leq()(v@[p], v@[q]) by {
                if j > 0 {
                    assert(pre[j - 1] <= x);
                }
                if q < j {
                    assert(v@[p] == pre[p] && v@[q] == pre[q]);
                } else if q == j {
                    assert(v@[p] == pre[p] && p <= j - 1);
                } else {
                    assert(v@[q] == pre[q - 1] && j <= q - 1 < i);
                    assert(pre[q - 1] > x);
                    if p < j {
                        assert(v@[p] == pre[p]);
                    } else if p == j {
                        assert(v@[p] == x);
                    } else {
                        assert(v@[p] == pre[p - 1]);
                    }
                }
            }
            assert(sorted_by(v@.subrange(0, i + 1), u64_leq())) by {
                let sub = v@.subrange(0, i + 1);
                assert forall|p: int, q: int| 0 <= p < q < sub.len() implies u64_leq()(
                    sub[p],
                    sub[q],
                ) by {
                    assert(sub[p] == v@[p] && sub[q] == v@[q]);
                    assert(u64_leq()(v@[p], v@[q]));
                }
            }
        }
        i += 1;
    }
    assert(v@ =~= v@.subrange(0, i as int));
}

/// Returns the median (rounded down to the nearest integral value) of
/// `values`, which can be unsorted.  If `values` is empty, returns 0.
pub fn median(values: Vec<u64>) -> (r: u64)
    ensures
        r == median_spec(values@),
{
    if values.len() == 0 {
        return 0;
    }
    let ghost orig = values@;
    let mut v = values;
    sort_u64(&mut v);
    proof {
        lemma_u64_leq_total();
        orig.lemma_sort_by_ensures(u64_leq());
        assert(v@.to_multiset() == sorted_u64(orig).to_multiset());
        lemma_sorted_unique(v@, sorted_u64(orig), u64_leq());
        assert(v@ == sorted_u64(orig));
    }
    let len = v.len();
    if len % 2 == 1 {
        v[len / 2]
    } else {
        let lower = v[len / 2 - 1];
        let upper = v[len / 2];
        assert(u64_leq()(lower, upper));
        assert(lower + (upper - lower) / 2 == (lower + upper) / 2);
        lower + (upper - lower) / 2
    }
}

/// The median of a non-empty batch lies between its least and greatest
/// value, inclusive: a minority of arbitrarily wrong reports cannot drag
/// the merged counter outside the range of the honest ones.
pub proof fn lemma_median_bounds(s: Seq<u64>)
    requires
        s.len() > 0,
    ensures
        seq_min_u64(s) <= median_spec(s),
        median_spec(s) <= seq_max_u64(s),
{
    broadcast use vstd::seq_lib::group_to_multiset_ensures;

    lemma_u64_leq_total();
    s.lemma_sort_by_ensures(u64_leq());
    let t = sorted_u64(s);
    assert(t.to_multiset() == s.to_multiset());
    assert(s.to_multiset().len() == s.len());
    assert(t.to_multiset().len() == t.len());
    assert(t.len() == s.len());
    lemma_min_max_bound_elements(s);
    let m = s.len() as int / 2;
    assert(s.to_multiset().count(t[m]) > 0);
    assert(s.contains(t[m]));
    let im = choose|i: int| 0 <= i < s.len() && s[i] == t[m];
    if s.len() % 2 == 1 {
        assert(median_spec(s) == t[m]);
    } else {
        assert(s.to_multiset().count(t[m - 1]) > 0);
        assert(s.contains(t[m - 1]));
        let il = choose|i: int| 0 <= i < s.len() && s[i] == t[m - 1];
        assert(u64_leq()(t[m - 1], t[m]));
        assert(t[m - 1] <= (t[m - 1] + t[m]) / 2 <= t[m]);
    }
}

/// Relies on rand::random: an arbitrary 64-bit value; nothing is promised
/// of the outcome.
#[verifier::external_body]
fn random_u64() -> u64 {
    rand::random()
}

/// A name drawn at random, for exercising the stores.
pub fn random_name() -> Name {
    Name(
        random_u64(),
        random_u64(),
        random_u64(),
        random_u64(),
        random_u64(),
        random_u64(),
        random_u64(),
        random_u64(),
    )
}

} // verus!
