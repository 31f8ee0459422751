//! Network identifiers and small helpers over sequences of them.

use vstd::prelude::*;

verus! {

/// A fixed-size (512-bit) network identifier, held as eight 64-bit words.
///
/// Identifiers name both content items and physical storage nodes; they are
/// opaque to this crate and only ever compared for equality.
#[derive(Clone, Copy, PartialEq, Eq, Structural, Debug, Hash)]
pub struct Name(pub u64, pub u64, pub u64, pub u64, pub u64, pub u64, pub u64, pub u64);

/// First index at which `x` occurs in `s`, or `-1` if it does not occur.
pub open spec fn first_eq<T>(s: Seq<T>, x: T) -> int
    decreases s.len(),
{
    if s.len() == 0 {
        -1
    } else if s[0] == x {
        0
    } else {
        let r = first_eq(s.drop_first(), x);
        if r < 0 {
            -1
        } else {
            r + 1
        }
    }
}

/// How often `x` occurs in `s`.
pub open spec fn count_eq<T>(s: Seq<T>, x: T) -> nat
    decreases s.len(),
{
    if s.len() == 0 {
        0
    } else {
        count_eq(s.drop_last(), x) + if s.last() == x {
            1nat
        } else {
            0nat
        }
    }
}

pub proof fn lemma_first_eq<T>(s: Seq<T>, x: T)
    ensures
        first_eq(s, x) >= 0 <==> s.contains(x),
        first_eq(s, x) >= 0 ==> first_eq(s, x) < s.len() && s[first_eq(s, x)] == x,
        forall|i: int| 0 <= i < first_eq(s, x) ==> s[i] != x,
        first_eq(s, x) < 0 ==> forall|i: int| 0 <= i < s.len() ==> s[i] != x,
    decreases s.len(),
{
    if s.len() > 0 && s[0] != x {
        lemma_first_eq(s.drop_first(), x);
        assert(forall|i: int| 0 < i < s.len() ==> s[i] == s.drop_first()[i - 1]);
    }
}

pub proof fn lemma_count_eq<T>(s: Seq<T>, x: T)
    ensures
        count_eq(s, x) <= s.len(),
        count_eq(s, x) > 0 <==> s.contains(x),
    decreases s.len(),
{
    if s.len() > 0 {
        lemma_count_eq(s.drop_last(), x);
        if s.contains(x) && s.last() != x {
            let i = choose|i: int| 0 <= i < s.len() && s[i] == x;
            assert(s.drop_last()[i] == x);
        }
        if s.drop_last().contains(x) {
            let i = choose|i: int| 0 <= i < s.len() - 1 && s.drop_last()[i] == x;
            assert(s[i] == x);
        }
    }
}

/// Appending an element leaves the first occurrence of anything already
/// present unchanged; a fresh element first occurs at the old length.
pub proof fn lemma_first_eq_push<T>(s: Seq<T>, x: T, y: T)
    ensures
        s.contains(x) ==> first_eq(s.push(y), x) == first_eq(s, x),
        !s.contains(x) && y == x ==> first_eq(s.push(y), x) == s.len(),
    decreases s.len(),
{
    lemma_first_eq(s, x);
    lemma_first_eq(s.push(y), x);
    if s.contains(x) {
        let f = first_eq(s, x);
        let g = first_eq(s.push(y), x);
        assert(s.push(y)[f] == x);
        if g < f {
            assert(s[g] == s.push(y)[g]);
        }
        if f < g {
            assert(s.push(y)[f] == x);
        }
    } else if y == x {
        let g = first_eq(s.push(y), x);
        assert(s.push(y)[s.len() as int] == x);
        if g < s.len() {
            assert(s[g] == s.push(y)[g]);
        }
    }
}

pub proof fn lemma_count_eq_push<T>(s: Seq<T>, x: T, y: T)
    ensures
        count_eq(s.push(y), x) == count_eq(s, x) + if y == x {
            1nat
        } else {
            0nat
        },
{
    assert(s.push(y).drop_last() =~= s);
}

/// Two distinct values cannot together occur more often than the sequence
/// is long.
pub proof fn lemma_count_eq_disjoint<T>(s: Seq<T>, x: T, y: T)
    requires
        x != y,
    ensures
        count_eq(s, x) + count_eq(s, y) <= s.len(),
    decreases s.len(),
{
    if s.len() > 0 {
        lemma_count_eq_disjoint(s.drop_last(), x, y);
    }
}

/// A value reported by a strict majority occurs strictly more often than
/// any other value.
pub proof fn lemma_strict_majority<T>(s: Seq<T>, x: T, y: T)
    requires
        2 * count_eq(s, x) > s.len(),
        y != x,
    ensures
        count_eq(s, y) < count_eq(s, x),
{
    lemma_count_eq_disjoint(s, x, y);
}

/// First index in the association list `t` whose key is `k`, or `-1`.
pub open spec fn key_index<V>(t: Seq<(Name, V)>, k: Name) -> int
    decreases t.len(),
{
    if t.len() == 0 {
        -1
    } else if t[0].0 == k {
        0
    } else {
        let r = key_index(t.drop_first(), k);
        if r < 0 {
            -1
        } else {
            r + 1
        }
    }
}

pub proof fn lemma_key_index<V>(t: Seq<(Name, V)>, k: Name)
    ensures
        key_index(t, k) >= 0 ==> key_index(t, k) < t.len() && t[key_index(t, k)].0 == k,
        forall|i: int| 0 <= i < key_index(t, k) ==> t[i].0 != k,
        key_index(t, k) < 0 ==> forall|i: int| 0 <= i < t.len() ==> t[i].0 != k,
    decreases t.len(),
{
    if t.len() > 0 && t[0].0 != k {
        lemma_key_index(t.drop_first(), k);
        assert(forall|i: int| 0 < i < t.len() ==> t[i] == t.drop_first()[i - 1]);
    }
}

/// True exactly when `v` holds `x`.
pub fn contains_name(v: &Vec<Name>, x: &Name) -> (r: bool)
    ensures
        r == v@.contains(*x),
{
    let mut i: usize = 0;
    while i < v.len()
        invariant
            0 <= i <= v@.len(),
            forall|j: int| 0 <= j < i ==> v@[j] != *x,
        decreases v@.len() - i,
    {
        if v[i] == *x {
            return true;
        }
        i += 1;
    }
    false
}

/// An exact copy of a list of identifiers.
pub fn copy_names(v: &Vec<Name>) -> (r: Vec<Name>)
    ensures
        r@ == v@,
{
    let mut r: Vec<Name> = Vec::new();
    let mut i: usize = 0;
    while i < v.len()
        invariant
            0 <= i <= v@.len(),
            r@ == v@.subrange(0, i as int),
        decreases v@.len() - i,
    {
        r.push(v[i]);
        assert(r@ =~= v@.subrange(0, i + 1));
        i += 1;
    }
    assert(r@ =~= v@);
    r
}

/// Whether two holder lists hold the same identifiers in the same order.
pub fn names_eq(a: &Vec<Name>, b: &Vec<Name>) -> (r: bool)
    ensures
        r == (a@ == b@),
{
    if a.len() != b.len() {
        assert(a@ != b@);
        return false;
    }
    let mut i: usize = 0;
    while i < a.len()
        invariant
            0 <= i <= a@.len(),
            a@.len() == b@.len(),
            forall|j: int| 0 <= j < i ==> a@[j] == b@[j],
        decreases a@.len() - i,
    {
        if a[i] != b[i] {
            assert(a@ != b@);
            return false;
        }
        i += 1;
    }
    assert(a@ =~= b@);
    true
}

} // verus!
