//! The order of byte vectors: lexicographic, as for slices.
use vstd::prelude::*;
use std::cmp::Ordering;
use crate::cvec::CVec;

verus! {

/// The lexicographic order of `a` and `b`: the first differing byte decides,
/// else the shorter comes first.
pub open spec fn lex_order(a: Seq<u8>, b: Seq<u8>) -> Ordering
    decreases a.len(),
{
    if a.len() == 0 {
        if b.len() == 0 {
            Ordering::Equal
        } else {
            Ordering::Less
        }
    } else if b.len() == 0 {
        Ordering::Greater
    } else if a[0] < b[0] {
        Ordering::Less
    } else if a[0] > b[0] {
        Ordering::Greater
    } else {
        lex_order(a.drop_first(), b.drop_first())
    }
}

/// The length of `a` as an integer.
spec fn len_int(a: Seq<u8>) -> int {
    a.len() as int
}

/// Skipping an equal first part leaves the order unchanged.
proof fn lemma_lex_skip(a: Seq<u8>, b: Seq<u8>, i: int)
    requires
        0 <= i <= a.len(),
        i <= b.len(),
        forall|j: int| 0 <= j < i ==> a[j] == b[j],
    ensures
        lex_order(a, b) == lex_order(a.skip(i), b.skip(i)),
    decreases i,
{
    if i > 0 {
        assert(a.skip(1).skip(i - 1) =~= a.skip(i));
        assert(b.skip(1).skip(i - 1) =~= b.skip(i));
        assert(a.drop_first() =~= a.skip(1));
        assert(b.drop_first() =~= b.skip(1));
        lemma_lex_skip(a.skip(1), b.skip(1), i - 1);
    } else {
        assert(a.skip(0) =~= a);
        assert(b.skip(0) =~= b);
    }
}

/// Law: the first position at which two byte sequences differ decides
/// their order, whatever their lengths: the one with the smaller byte there
/// comes first.
pub proof fn lemma_lex_order_first_difference(a: Seq<u8>, b: Seq<u8>, i: int)
    requires
        0 <= i < a.len(),
        i < b.len(),
        forall|j: int| 0 <= j < i ==> a[j] == b[j],
    ensures
        a[i] < b[i] ==> lex_order(a, b) == Ordering::Less,
        a[i] > b[i] ==> lex_order(a, b) == Ordering::Greater,
{
    lemma_lex_skip(a, b, i);
    assert(a.skip(i)[0] == a[i]);
    assert(b.skip(i)[0] == b[i]);
}

/// Law: where one byte sequence begins the other, the shorter comes first,
/// and equal sequences are equal in the order.
pub proof fn lemma_lex_order_prefix(a: Seq<u8>, b: Seq<u8>)
    requires
        a.len() <= b.len(),
        forall|j: int| 0 <= j < a.len() ==> a[j] == b[j],
    ensures
        a.len() < b.len() ==> lex_order(a, b) == Ordering::Less && lex_order(b, a)
            == Ordering::Greater,
        a.len() == b.len() ==> lex_order(a, b) == Ordering::Equal && a == b,
{
    let n = len_int(a);
    lemma_lex_skip(a, b, n);
    lemma_lex_skip(b, a, n);
    assert(a.skip(n).len() == 0);
    if a.len() == b.len() {
        assert(a =~= b);
    }
}

/// Law: the order is antisymmetric: `a` comes before `b` exactly when `b`
/// comes after `a`, and they are equal in the order exactly when equal.
pub proof fn lemma_lex_order_antisymmetric(a: Seq<u8>, b: Seq<u8>)
    ensures
        (lex_order(a, b) == Ordering::Less) == (lex_order(b, a) == Ordering::Greater),
        (lex_order(a, b) == Ordering::Equal) == (a == b),
    decreases a.len(),
{
    if a.len() > 0 && b.len() > 0 && a[0] == b[0] {
        lemma_lex_order_antisymmetric(a.drop_first(), b.drop_first());
        if a.drop_first() == b.drop_first() {
            assert(a =~= seq![a[0]] + a.drop_first());
            assert(b =~= seq![b[0]] + b.drop_first());
        }
    } else if a.len() == 0 && b.len() == 0 {
        assert(a =~= b);
    }
}

impl<const C: usize> PartialOrd for CVec<u8, C> {
    /// Orders by the bytes, lexicographically; always comparable.
    fn partial_cmp(&self, other: &Self) -> (r: Option<Ordering>) {
        let a = self.bytes_for_order();
        let b = other.bytes_for_order();
        let mut i: usize = 0;
        let ghost mut k: int = 0;
        while i < a.len() && i < b.len()
            invariant
                k == i,
                a@ == self@,
                b@ == other@,
                i <= a@.len(),
                i <= b@.len(),
                forall|j: int| 0 <= j < i ==> a@[j] == b@[j],
            decreases a@.len() - i,
        {
            if a[i] < b[i] {
                proof {
                    lemma_lex_skip(a@, b@, k);
                }
                return Some(Ordering::Less);
            }
            if a[i] > b[i] {
                proof {
                    lemma_lex_skip(a@, b@, k);
                }
                return Some(Ordering::Greater);
            }
            i = i + 1;
            proof {
                k = k + 1;
            }
        }
        proof {
            lemma_lex_skip(a@, b@, k);
        }
        if a.len() == b.len() {
            Some(Ordering::Equal)
        } else if a.len() < b.len() {
            Some(Ordering::Less)
        } else {
            Some(Ordering::Greater)
        }
    }
}

impl<const C: usize> vstd::std_specs::cmp::PartialOrdSpecImpl for CVec<u8, C> {
    open spec fn obeys_partial_cmp_spec() -> bool {
        true
    }

    open spec fn partial_cmp_spec(&self, other: &Self) -> Option<Ordering> {
        Some(lex_order(self@, other@))
    }
}

} // verus!
