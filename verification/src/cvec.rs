//! A compact vector: up to `C` items live inline, more spill to the heap.
use vstd::prelude::*;
use vstd::utf8::{valid_utf8, decode_utf8};
use crate::text::utf8_str;
use vstd::std_specs::cmp::PartialEqSpec;

verus! {

/// A vector of `Copy` items that keeps up to `C` of them inline (`Int`, the
/// array and the number of items in use) and moves them to a `Vec` (`Ext`)
/// once they no longer fit.
#[derive(Debug)]
pub enum CVec<T: Copy, const C: usize> {
    Int(([T; C], u8)),
    Ext(Vec<T>),
}

impl<T: Copy, const C: usize> View for CVec<T, C> {
    type V = Seq<T>;

    /// The items in order: the used prefix of the array (at most all of it),
    /// or the vector.
    open spec fn view(&self) -> Seq<T> {
        match self {
            CVec::Int((a, l)) => a@.take(
                if *l as int <= C {
                    *l as int
                } else {
                    C as int
                },
            ),
            CVec::Ext(v) => v@,
        }
    }
}

impl<T: Copy, const C: usize> CVec<T, C> {
    /// Well-formed: the inline count does not pass the array's end.
    pub open spec fn wf(&self) -> bool {
        match self {
            CVec::Int((_, l)) => *l as int <= C,
            CVec::Ext(_) => true,
        }
    }

    /// Whether the items are held inline.
    pub open spec fn is_inline(&self) -> bool {
        self is Int
    }

    /// The items, and whether they are inline, after pushing `t` onto
    /// `items`, held inline or not as `inline` says.
    pub open spec fn after_push(items: Seq<T>, inline: bool, t: T) -> (Seq<T>, bool) {
        (items.push(t), inline && items.len() < C)
    }

    /// The items, and whether they are inline, after appending `s` to
    /// `items`, held inline or not as `inline` says.
    pub open spec fn after_extend(items: Seq<T>, inline: bool, s: Seq<T>) -> (Seq<T>, bool) {
        (items + s, inline && items.len() + s.len() <= C)
    }

    /// The items, and whether they are inline, after pushing the items of `s`
    /// one by one.
    pub open spec fn after_pushes(items: Seq<T>, inline: bool, s: Seq<T>) -> (Seq<T>, bool)
        decreases s.len(),
    {
        if s.len() == 0 {
            (items, inline)
        } else {
            let (v, i) = Self::after_pushes(items, inline, s.drop_last());
            Self::after_push(v, i, s.last())
        }
    }

    /// Law: appending a slice to a well-formed vector (one held inline has at
    /// most `C` items) leaves the same items, held the same way, as pushing its
    /// items one by one.
    pub proof fn lemma_extend_is_pushes(items: Seq<T>, inline: bool, s: Seq<T>)
        requires
            inline ==> items.len() <= C,
        ensures
            Self::after_extend(items, inline, s) == Self::after_pushes(items, inline, s),
        decreases s.len(),
    {
        if s.len() == 0 {
            assert(items + s =~= items);
        } else {
            Self::lemma_extend_is_pushes(items, inline, s.drop_last());
            let prev = Self::after_pushes(items, inline, s.drop_last());
            assert(prev.0 == items + s.drop_last());
            assert(prev.1 == (inline && items.len() + s.len() - 1 <= C));
            assert(Self::after_pushes(items, inline, s) == Self::after_push(prev.0, prev.1, s.last()));
            assert(items + s =~= (items + s.drop_last()).push(s.last()));
        }
    }
}

impl<T: Copy + Default, const C: usize> CVec<T, C> {
    /// An empty vector, held inline.
    pub fn new() -> (r: Self)
        ensures
            r.wf(),
            r@ == Seq::<T>::empty(),
            r.is_inline(),
    {
        CVec::Int(([T::default(); C], 0))
    }

    /// The number of items (for an inline vector, its count).
    pub fn len(&self) -> (r: usize)
        ensures
            self.wf() ==> r == self@.len(),
            self matches CVec::Int((_, l)) ==> r == l,
            self matches CVec::Ext(v) ==> r == v@.len(),
    {
        match self {
            CVec::Int((_, l)) => *l as usize,
            CVec::Ext(v) => v.len(),
        }
    }

    /// Whether there is no item (for an inline vector, whether its count is 0).
    pub fn is_empty(&self) -> (r: bool)
        ensures
            self.wf() ==> r == (self@.len() == 0),
            self matches CVec::Int((_, l)) ==> r == (l == 0),
            self matches CVec::Ext(v) ==> r == (v@.len() == 0),
    {
        self.len() == 0
    }
}

impl<T: Copy, const C: usize> CVec<T, C> {
    /// The items as a slice.
    pub fn as_slice(&self) -> (r: &[T])
        requires
            self.wf(),
        ensures
            r@ == self@,
    {
        match self {
            CVec::Int((a, l)) => {
                let s: &[T] = a.as_slice();
                &s[0..*l as usize]
            },
            CVec::Ext(v) => v.as_slice(),
        }
    }

    /// Appends `t`. An inline vector that is full moves to the heap.
    pub fn push(&mut self, t: T)
        requires
            old(self).wf(),
            C <= 255,
        ensures
            final(self).wf(),
            final(self)@ == old(self)@.push(t),
            final(self).is_inline() <==> (old(self).is_inline() && old(self)@.len() < C),
            (final(self)@, final(self).is_inline()) == Self::after_push(
                old(self)@,
                old(self).is_inline(),
                t,
            ),
    {
        match self {
            CVec::Int((a, l)) => {
                let len = *l as usize;
                if len < C {
                    a[len] = t;
                    *l = (len + 1) as u8;
                    assert(a@.take(len + 1) =~= old(self)@.push(t));
                    return;
                }
            },
            CVec::Ext(v) => {
                v.push(t);
                return;
            },
        }
        let mut v = self.to_vec_with_room(1);
        v.push(t);
        *self = CVec::Ext(v);
    }

    /// Appends the items of `s`. An inline vector that cannot take them all
    /// moves to the heap.
    pub fn extend_from_slice(&mut self, s: &[T])
        requires
            old(self).wf(),
            C <= 255,
            old(self)@.len() + s@.len() <= usize::MAX,
        ensures
            final(self).wf(),
            final(self)@ == old(self)@ + s@,
            final(self).is_inline() <==> (old(self).is_inline() && old(self)@.len() + s@.len()
                <= C),
            (final(self)@, final(self).is_inline()) == Self::after_extend(
                old(self)@,
                old(self).is_inline(),
                s@,
            ),
    {
        let n = s.len();
        match self {
            CVec::Int((a, l)) => {
                let len = *l as usize;
                if len + n <= C {
                    let mut i: usize = 0;
                    while i < n
                        invariant
                            n == s@.len(),
                            len + n <= C,
                            i <= n,
                            a@.len() == C,
                            a@.take(len as int) == old(self)@,
                            a@.subrange(len as int, (len + i) as int) == s@.take(i as int),
                        decreases n - i,
                    {
                        let ghost prev = a@;
                        a[len + i] = s[i];
                        i = i + 1;
                        assert(a@.take(len as int) =~= prev.take(len as int));
                        assert(a@.subrange(len as int, (len + i) as int) =~= prev.subrange(
                            len as int,
                            (len + i - 1) as int,
                        ).push(s@[i - 1]));
                        assert(s@.take(i as int) =~= s@.take(i - 1).push(s@[i - 1]));
                    }
                    *l = (len + n) as u8;
                    assert(a@.take((len + n) as int) =~= a@.take(len as int) + a@.subrange(
                        len as int,
                        (len + n) as int,
                    ));
                    assert(s@.take(n as int) =~= s@);
                    return;
                }
            },
            CVec::Ext(v) => {
                Self::push_all(v, s);
                return;
            },
        }
        let mut v = self.to_vec_with_room(n);
        Self::push_all(&mut v, s);
        *self = CVec::Ext(v);
    }

    /// Pushes the items of `s` onto `v`, in order.
    fn push_all(v: &mut Vec<T>, s: &[T])
        ensures
            final(v)@ == old(v)@ + s@,
    {
        let n = s.len();
        let mut i: usize = 0;
        while i < n
            invariant
                n == s@.len(),
                i <= n,
                v@ == old(v)@ + s@.take(i as int),
            decreases n - i,
        {
            v.push(s[i]);
            i = i + 1;
            assert(s@.take(i as int) =~= s@.take(i - 1).push(s@[i - 1]));
        }
        assert(s@.take(n as int) =~= s@);
    }

    /// The items, copied into a new `Vec` made with room for `extra` more.
    fn to_vec_with_room(&self, extra: usize) -> (r: Vec<T>)
        requires
            self.wf(),
        ensures
            r@ == self@,
    {
        let s = self.as_slice();
        let n = s.len();
        let mut v: Vec<T> = Vec::with_capacity(n.saturating_add(extra));
        let mut i: usize = 0;
        while i < n
            invariant
                n == s@.len(),
                i <= n,
                v@ == s@.take(i as int),
            decreases n - i,
        {
            v.push(s[i]);
            i = i + 1;
            assert(s@.take(i as int) =~= s@.take(i - 1).push(s@[i - 1]));
        }
        assert(s@.take(n as int) =~= s@);
        v
    }
}

impl<T: Copy + Default, const C: usize> CVec<T, C> {
    /// The number of items it can hold without a new allocation.
    pub fn capacity(&self) -> (r: usize)
        ensures
            self.is_inline() ==> r == C,
            self.wf() ==> r >= self@.len(),
    {
        match self {
            CVec::Int(_) => C,
            CVec::Ext(v) => vec_capacity(v),
        }
    }

    /// An inline vector holding the items of `v`.
    fn inner_from_slice(v: &[T]) -> (r: Self)
        requires
            v@.len() <= C,
            v@.len() <= 255,
        ensures
            r.wf(),
            r.is_inline(),
            r@ == v@,
    {
        let n = v.len();
        let mut a = [T::default(); C];
        let mut i: usize = 0;
        while i < n
            invariant
                n == v@.len(),
                n <= C,
                i <= n,
                a@.len() == C,
                a@.take(i as int) == v@.take(i as int),
            decreases n - i,
        {
            let ghost prev = a@;
            a[i] = v[i];
            i = i + 1;
            assert(a@.take(i as int) =~= prev.take(i - 1).push(v@[i - 1]));
            assert(v@.take(i as int) =~= v@.take(i - 1).push(v@[i - 1]));
        }
        assert(v@.take(n as int) =~= v@);
        CVec::Int((a, n as u8))
    }
}

impl<const C: usize> CVec<u8, C> {
    /// The bytes as text; they must be valid UTF-8.
    pub fn to_string(&self) -> (r: String)
        requires
            self.wf(),
            valid_utf8(self@),
        ensures
            r@ == decode_utf8(self@),
    {
        match utf8_str(self.as_slice()) {
            Some(s) => s.to_owned(),
            None => String::new(),
        }
    }
}

impl<const C: usize> CVec<u8, C> {
    /// The bytes, up to the array's end where the count overshoots it.
    pub(crate) fn bytes_for_order(&self) -> (r: &[u8])
        ensures
            r@ == self@,
    {
        self.items()
    }
}

impl<T: Copy, const C: usize> CVec<T, C> {
    /// The items, up to the array's end where the count overshoots it.
    fn items(&self) -> (r: &[T])
        ensures
            r@ == self@,
    {
        match self {
            CVec::Int((a, l)) => {
                let s: &[T] = a.as_slice();
                let n = if (*l as usize) <= C {
                    *l as usize
                } else {
                    C
                };
                &s[0..n]
            },
            CVec::Ext(v) => v.as_slice(),
        }
    }
}

/// Whether `a` and `b` have the same length and their items are pairwise
/// equal as the items' `==` says.
pub open spec fn items_eq<T: PartialEq>(a: Seq<T>, b: Seq<T>) -> bool {
    &&& a.len() == b.len()
    &&& forall|i: int| 0 <= i < a.len() ==> (#[trigger] a[i]).eq_spec(&b[i])
}

/// For bytes, pairwise equal items are equal sequences.
pub proof fn lemma_items_eq_bytes(a: Seq<u8>, b: Seq<u8>)
    ensures
        items_eq(a, b) <==> a == b,
{
    if items_eq(a, b) {
        assert(a =~= b);
    }
}

impl<T: Copy + PartialEq, const C: usize> PartialEq for CVec<T, C> {
    /// Equal when they hold equal items in the same order, inline or not.
    fn eq(&self, other: &Self) -> (r: bool) {
        let a = self.items();
        let b = other.items();
        if a.len() != b.len() {
            return false;
        }
        let mut i: usize = 0;
        while i < a.len()
            invariant
                a@ == self@,
                b@ == other@,
                a@.len() == b@.len(),
                i <= a@.len(),
                <T as PartialEqSpec>::obeys_eq_spec() ==> forall|j: int| 0 <= j < i ==> (#[trigger] a@[j]).eq_spec(&b@[j]),
            decreases a@.len() - i,
        {
            if !(a[i] == b[i]) {
                return false;
            }
            i = i + 1;
        }
        true
    }
}

impl<T: Copy + PartialEq, const C: usize> vstd::std_specs::cmp::PartialEqSpecImpl for CVec<T, C> {
    open spec fn obeys_eq_spec() -> bool {
        <T as PartialEqSpec>::obeys_eq_spec()
    }

    open spec fn eq_spec(&self, other: &Self) -> bool {
        items_eq(self@, other@)
    }
}

impl<T: Copy + Eq, const C: usize> Eq for CVec<T, C> {

}

impl<T: Copy + core::hash::Hash, const C: usize> core::hash::Hash for CVec<T, C> {
    /// Hashes the items as a slice, so that equal vectors hash alike.
    fn hash<H: core::hash::Hasher>(&self, state: &mut H) {
        hash_items(self.items(), state);
    }
}

/// `<[T] as Hash>::hash`: feeds the items to the hasher; nothing is stated of
/// the hasher's state.
#[verifier::external_body]
fn hash_items<T: core::hash::Hash, H: core::hash::Hasher>(b: &[T], state: &mut H) {
    core::hash::Hash::hash(b, state)
}

impl<T: Copy, const C: usize> AsRef<[T]> for CVec<T, C> {
    /// The items as a slice (for an inline vector, at most the whole array).
    fn as_ref(&self) -> (r: &[T])
        ensures
            r@ == self@,
    {
        self.items()
    }
}

/// `Vec::capacity`: the documentation promises that it is never below the length.
#[verifier::external_body]
fn vec_capacity<T>(v: &Vec<T>) -> (r: usize)
    ensures
        r >= v@.len(),
{
    v.capacity()
}

impl<'a, T: Copy + Default, const C: usize> From<&'a [T]> for CVec<T, C> {
    /// Holds the items inline when they fit, else in a new `Vec`.
    fn from(v: &'a [T]) -> (r: Self)
        ensures
            r.wf(),
            r@ == v@,
            r.is_inline() <==> (v@.len() <= C && v@.len() <= 255),
    {
        if v.len() <= C && v.len() <= 255 {
            Self::inner_from_slice(v)
        } else {
            CVec::Ext(slice_to_owned_vec(v))
        }
    }
}

impl<'a, T: Copy + Default, const C: usize> vstd::std_specs::convert::FromSpecImpl<&'a [T]> for CVec<T, C> {
    /// The array's unused slots are not fixed, so no single value is named.
    open spec fn obeys_from_spec() -> bool {
        false
    }

    open spec fn from_spec(v: &'a [T]) -> Self {
        choose|r: Self| r.wf() && r@ == v@
    }
}

impl<T: Copy + Default, const C: usize> From<Vec<T>> for CVec<T, C> {
    /// Holds the items inline when they fit, else keeps `v` itself.
    fn from(v: Vec<T>) -> (r: Self)
        ensures
            r.wf(),
            r@ == v@,
            r.is_inline() <==> (v@.len() <= C && v@.len() <= 255),
    {
        if v.len() <= C && v.len() <= 255 {
            Self::inner_from_slice(v.as_slice())
        } else {
            CVec::Ext(v)
        }
    }
}

impl<T: Copy + Default, const C: usize> vstd::std_specs::convert::FromSpecImpl<Vec<T>> for CVec<T, C> {
    /// The array's unused slots are not fixed, so no single value is named.
    open spec fn obeys_from_spec() -> bool {
        false
    }

    open spec fn from_spec(v: Vec<T>) -> Self {
        choose|r: Self| r.wf() && r@ == v@
    }
}

impl<T: Copy + Default, const C: usize> Default for CVec<T, C> {
    /// The empty vector.
    fn default() -> (r: Self)
        ensures
            r.wf(),
            r@ == Seq::<T>::empty(),
            r.is_inline(),
    {
        Self::new()
    }
}

impl<T: Copy, const C: usize> Clone for CVec<T, C> {
    /// A copy that holds the same items, in the same form.
    fn clone(&self) -> (r: Self)
        ensures
            r@ == self@,
            r.is_inline() == self.is_inline(),
            self.wf() ==> r.wf(),
    {
        match self {
            CVec::Int((a, l)) => CVec::Int((*a, *l)),
            CVec::Ext(v) => CVec::Ext(slice_to_owned_vec(v.as_slice())),
        }
    }
}

/// The items of `s`, copied into a new `Vec`.
fn slice_to_owned_vec<T: Copy>(s: &[T]) -> (r: Vec<T>)
    ensures
        r@ == s@,
{
    let n = s.len();
    let mut v: Vec<T> = Vec::with_capacity(n);
    let mut i: usize = 0;
    while i < n
        invariant
            n == s@.len(),
            i <= n,
            v@ == s@.take(i as int),
        decreases n - i,
    {
        v.push(s[i]);
        i = i + 1;
        assert(s@.take(i as int) =~= s@.take(i - 1).push(s@[i - 1]));
    }
    assert(s@.take(n as int) =~= s@);
    v
}

} // verus!
