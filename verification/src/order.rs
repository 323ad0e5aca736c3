//! The total order on keys that the tree is built on.

use std::cmp::Ordering;
use vstd::laws_cmp::obeys_cmp;
use vstd::laws_eq::obeys_concrete_eq;
use vstd::prelude::*;
use vstd::std_specs::cmp::OrdSpec;

verus! {

/// A key: a value of a totally ordered domain whose comparison agrees with
/// equality of values.
pub trait Key: Sized + Ord + Eq {
    /// The comparison of `Self` is a total order, and two keys compare equal
    /// exactly when they are the same value.
    proof fn order_laws()
        ensures
            obeys_cmp::<Self>(),
            obeys_concrete_eq::<Self>(),
    ;
}

impl Key for u32 {
    proof fn order_laws() {
        broadcast use vstd::laws_cmp::group_laws_cmp;
        broadcast use vstd::laws_eq::group_laws_eq;

    }
}

impl Key for u64 {
    proof fn order_laws() {
        broadcast use vstd::laws_cmp::group_laws_cmp;
        broadcast use vstd::laws_eq::group_laws_eq;

    }
}

impl Key for i32 {
    proof fn order_laws() {
        broadcast use vstd::laws_cmp::group_laws_cmp;
        broadcast use vstd::laws_eq::group_laws_eq;

    }
}

impl Key for i64 {
    proof fn order_laws() {
        broadcast use vstd::laws_cmp::group_laws_cmp;
        broadcast use vstd::laws_eq::group_laws_eq;

    }
}

/// `a` stands strictly before `b` in the order of keys.
pub open spec fn lt<T: Key>(a: T, b: T) -> bool {
    a.cmp_spec(&b) == Ordering::Less
}

/// `lt` is a strict total order on the keys of any type.
pub proof fn lemma_strict_total_order<T: Key>()
    ensures
        forall|a: T| !#[trigger] lt(a, a),
        forall|a: T, b: T| #[trigger] lt(a, b) ==> !lt(b, a),
        forall|a: T, b: T, c: T| #[trigger] lt(a, b) && #[trigger] lt(b, c) ==> lt(a, c),
        forall|a: T, b: T| a == b || #[trigger] lt(a, b) || #[trigger] lt(b, a),
{
    T::order_laws();
    reveal(vstd::laws_cmp::obeys_cmp_ord);
    reveal(vstd::laws_cmp::obeys_cmp_partial_ord);
    reveal(vstd::laws_cmp::obeys_partial_cmp_spec_properties);
    reveal(vstd::laws_eq::obeys_concrete_eq);
    assert forall|a: T, b: T| a == b || #[trigger] lt(a, b) || #[trigger] lt(b, a) by {
        match a.cmp_spec(&b) {
            Ordering::Less => {},
            Ordering::Equal => {},
            Ordering::Greater => {},
        }
    }
}

/// How one key stands to another.
pub enum Rank {
    /// Strictly before the other.
    Before,
    /// The same key.
    Same,
    /// Strictly after the other.
    After,
}

/// Three-way comparison of two keys.
pub fn rank<T: Key>(a: &T, b: &T) -> (r: Rank)
    ensures
        r is Before <==> lt(*a, *b),
        r is Same <==> *a == *b,
        r is After <==> lt(*b, *a),
{
    proof {
        T::order_laws();
        reveal(vstd::laws_cmp::obeys_cmp_ord);
        reveal(vstd::laws_cmp::obeys_cmp_partial_ord);
        reveal(vstd::laws_cmp::obeys_partial_cmp_spec_properties);
        reveal(vstd::laws_eq::obeys_concrete_eq);
    }
    match a.cmp(b) {
        Ordering::Less => Rank::Before,
        Ordering::Equal => Rank::Same,
        Ordering::Greater => Rank::After,
    }
}

/// The keys of `s` are strictly ascending, so none occurs twice.
pub open spec fn ascending<T: Key>(s: Seq<T>) -> bool {
    forall|i: int, j: int| 0 <= i < j < s.len() ==> lt(#[trigger] s[i], #[trigger] s[j])
}

/// `k` lies in gap `i` of `s`: strictly after `s[i - 1]`, where there is one,
/// and strictly before `s[i]`, where there is one.
pub open spec fn in_gap<T: Key>(s: Seq<T>, i: int, k: T) -> bool {
    &&& 0 <= i <= s.len()
    &&& 0 < i ==> lt(s[i - 1], k)
    &&& i < s.len() ==> lt(k, s[i])
}

/// The index of the first key of `s` that is not before `k`, or the length
/// of `s` where every key is before `k`. In an ascending `s` that holds no
/// `k` this is where `k` belongs.
pub open spec fn slot<T: Key>(s: Seq<T>, k: T) -> int
    decreases s.len(),
{
    if s.len() == 0 || !lt(s[0], k) {
        0
    } else {
        1 + slot(s.skip(1), k)
    }
}

/// The slot of a key is an index of the sequence or its length.
pub proof fn lemma_slot_in_range<T: Key>(s: Seq<T>, k: T)
    ensures
        0 <= slot(s, k) <= s.len(),
    decreases s.len(),
{
    if s.len() > 0 && lt(s[0], k) {
        lemma_slot_in_range(s.skip(1), k);
    }
}

/// The scan that stops at index `i` has found the slot of `k`: every key
/// before `i` is before `k`, and the key at `i`, if there is one, is not.
pub proof fn lemma_slot_found<T: Key>(s: Seq<T>, k: T, i: int)
    requires
        0 <= i <= s.len(),
        forall|j: int| 0 <= j < i ==> lt(#[trigger] s[j], k),
        i < s.len() ==> !lt(s[i], k),
    ensures
        slot(s, k) == i,
    decreases i,
{
    if i > 0 {
        let rest = s.skip(1);
        assert forall|j: int| 0 <= j < i - 1 implies lt(#[trigger] rest[j], k) by {
            assert(rest[j] == s[j + 1]);
        }
        lemma_slot_found(rest, k, i - 1);
    }
}

/// An ascending sequence holds no key that lies in one of its gaps.
pub proof fn lemma_gap_excludes<T: Key>(s: Seq<T>, i: int, k: T)
    requires
        ascending(s),
        in_gap(s, i, k),
    ensures
        !s.contains(k),
{
    lemma_strict_total_order::<T>();
    assert forall|j: int| 0 <= j < s.len() implies s[j] != k by {
        if j < i - 1 {
            assert(lt(s[j], s[i - 1]));
        } else if j > i {
            assert(lt(s[i], s[j]));
        }
    }
}

/// A key lies in at most one gap of an ascending sequence.
pub proof fn lemma_gap_unique<T: Key>(s: Seq<T>, i: int, j: int, k: T)
    requires
        ascending(s),
        in_gap(s, i, k),
        in_gap(s, j, k),
    ensures
        i == j,
{
    lemma_strict_total_order::<T>();
    if i < j {
        if i < j - 1 {
            assert(lt(s[i], s[j - 1]));
        }
    } else if j < i {
        if j < i - 1 {
            assert(lt(s[j], s[i - 1]));
        }
    }
}

/// A key put into its gap leaves the sequence ascending, and adds that key
/// and no other.
pub proof fn lemma_insert_in_gap<T: Key>(s: Seq<T>, i: int, k: T)
    requires
        ascending(s),
        in_gap(s, i, k),
    ensures
        ascending(s.insert(i, k)),
        forall|x: T| s.insert(i, k).contains(x) <==> s.contains(x) || x == k,
{
    lemma_strict_total_order::<T>();
    let t = s.insert(i, k);
    assert forall|a: int, b: int| 0 <= a < b < t.len() implies lt(
        #[trigger] t[a],
        #[trigger] t[b],
    ) by {
        if b == i {
            if a < i - 1 {
                assert(lt(s[a], s[i - 1]));
            }
        } else if a == i {
            if b - 1 > i {
                assert(lt(s[i], s[b - 1]));
            }
        } else {
            let a0 = if a < i { a } else { a - 1 };
            let b0 = if b < i { b } else { b - 1 };
            assert(lt(s[a0], s[b0]));
        }
    }
    assert forall|x: T| t.contains(x) <==> s.contains(x) || x == k by {
        if t.contains(x) {
            let a = choose|a: int| 0 <= a < t.len() && t[a] == x;
            if a < i {
                assert(s[a] == x);
            } else if a > i {
                assert(s[a - 1] == x);
            }
        }
        if s.contains(x) {
            let a = choose|a: int| 0 <= a < s.len() && s[a] == x;
            if a < i {
                assert(t[a] == x);
            } else {
                assert(t[a + 1] == x);
            }
        }
        if x == k {
            assert(t[i] == x);
        }
    }
}

/// Two ascending sequences with a key between them, which is after every
/// key of the first and before every key of the second, make one ascending
/// sequence.
pub proof fn lemma_join_ascending<T: Key>(a: Seq<T>, m: T, b: Seq<T>)
    requires
        ascending(a),
        ascending(b),
        forall|i: int| 0 <= i < a.len() ==> lt(#[trigger] a[i], m),
        forall|i: int| 0 <= i < b.len() ==> lt(m, #[trigger] b[i]),
    ensures
        ascending(a + seq![m] + b),
        forall|x: T| (a + seq![m] + b).contains(x) <==> a.contains(x) || x == m || b.contains(x),
{
    lemma_strict_total_order::<T>();
    let t = a + seq![m] + b;
    let n = a.len() as int;
    assert forall|i: int, j: int| 0 <= i < j < t.len() implies lt(
        #[trigger] t[i],
        #[trigger] t[j],
    ) by {
        if j < n {
            assert(t[i] == a[i] && t[j] == a[j]);
        } else if j == n {
            assert(t[i] == a[i] && t[j] == m);
        } else if i < n {
            assert(t[i] == a[i] && t[j] == b[j - n - 1]);
            assert(lt(a[i], m) && lt(m, b[j - n - 1]));
        } else if i == n {
            assert(t[i] == m && t[j] == b[j - n - 1]);
        } else {
            assert(t[i] == b[i - n - 1] && t[j] == b[j - n - 1]);
        }
    }
    assert forall|x: T| t.contains(x) <==> a.contains(x) || x == m || b.contains(x) by {
        if t.contains(x) {
            let i = choose|i: int| 0 <= i < t.len() && t[i] == x;
            if i < n {
                assert(a[i] == x);
            } else if i > n {
                assert(b[i - n - 1] == x);
            }
        }
        if a.contains(x) {
            let i = choose|i: int| 0 <= i < a.len() && a[i] == x;
            assert(t[i] == x);
        }
        if b.contains(x) {
            let i = choose|i: int| 0 <= i < b.len() && b[i] == x;
            assert(t[i + n + 1] == x);
        }
        if x == m {
            assert(t[n] == x);
        }
    }
}

/// An ascending sequence holds no key twice.
pub proof fn lemma_ascending_no_duplicates<T: Key>(s: Seq<T>)
    requires
        ascending(s),
    ensures
        s.no_duplicates(),
{
    lemma_strict_total_order::<T>();
    assert forall|i: int, j: int| 0 <= i < s.len() && 0 <= j < s.len() && i != j implies s[i]
        != s[j] by {
        if i < j {
            assert(lt(s[i], s[j]));
        } else {
            assert(lt(s[j], s[i]));
        }
    }
}

} // verus!
