//! The comparison model: total preorders, what a three-way comparator may
//! report about one, and a trait for element types that carry their own
//! natural order.

use vstd::prelude::*;

verus! {

use core::cmp::Ordering;
use vstd::relations::{strongly_connected, transitive};
use vstd::string::StringSliceAdditionalSpecFns;

/// A total preorder: any two values are related in at least one direction and
/// the relation is transitive. Antisymmetry is deliberately not demanded: two
/// distinct values may tie, which is exactly what a comparator that inspects
/// one field of a record produces.
pub open spec fn total_preorder<T>(leq: spec_fn(T, T) -> bool) -> bool {
    &&& strongly_connected(leq)
    &&& transitive(leq)
}

/// The same relation read backwards.
pub open spec fn flipped<T>(leq: spec_fn(T, T) -> bool) -> spec_fn(T, T) -> bool {
    |a: T, b: T| leq(b, a)
}

/// A total preorder flipped is again a total preorder.
pub proof fn lemma_flipped_total_preorder<T>(leq: spec_fn(T, T) -> bool)
    requires
        total_preorder(leq),
    ensures
        total_preorder(flipped(leq)),
{
}

/// What a comparator's possible answers say about the relation `leq`:
/// `Less` may only come when `a` is at most `b`, `Greater` only when `b` is
/// at most `a`, and `Equal` only when the two tie. On tied values every
/// answer is admissible, so nothing here forces the comparator to be a
/// function of the relation alone.
pub open spec fn comparator_reports<T, F: Fn(&T, &T) -> Ordering>(
    f: F,
    leq: spec_fn(T, T) -> bool,
) -> bool {
    forall|a: &T, b: &T, o: Ordering|
        #[trigger] call_ensures(f, (a, b), o) ==> match o {
            Ordering::Less => leq(*a, *b),
            Ordering::Equal => leq(*a, *b) && leq(*b, *a),
            Ordering::Greater => leq(*b, *a),
        }
}

/// The comparator may be called on any pair of values.
pub open spec fn callable_on_all<T, F: Fn(&T, &T) -> Ordering>(f: F) -> bool {
    forall|a: &T, b: &T| #[trigger] call_requires(f, (a, b))
}

/// A total preorder that the comparator's answers never contradict. The
/// sorting routines promise their output sorted with respect to every such
/// relation at once.
pub open spec fn consistent_with<T, F: Fn(&T, &T) -> Ordering>(
    f: F,
    leq: spec_fn(T, T) -> bool,
) -> bool {
    &&& total_preorder(leq)
    &&& comparator_reports(f, leq)
}

/// A two-way split of the elements into small and large that the
/// comparator's possible answers never contradict: whenever it may answer
/// `Less` the left element is at most as large as the right, whenever
/// `Greater` the reverse, and `Equal` only between elements on the same side.
pub open spec fn classifier_respects<T, F: Fn(&T, &T) -> Ordering>(
    h: spec_fn(T) -> bool,
    f: F,
) -> bool {
    forall|a: &T, b: &T, o: Ordering|
        #[trigger] call_ensures(f, (a, b), o) ==> match o {
            Ordering::Less => h(*a) ==> h(*b),
            Ordering::Equal => h(*a) == h(*b),
            Ordering::Greater => h(*b) ==> h(*a),
        }
}

/// The natural order of an element type, as a relation value.
pub open spec fn natural_leq<T: TotalOrder>() -> spec_fn(T, T) -> bool {
    |a: T, b: T| T::le(a, b)
}

/// The natural order is a total preorder.
pub proof fn lemma_natural_leq_total_preorder<T: TotalOrder>()
    ensures
        total_preorder(natural_leq::<T>()),
{
    let leq = natural_leq::<T>();
    assert forall|a: T, b: T| #[trigger] leq(a, b) || #[trigger] leq(b, a) by {
        T::lemma_le_connected(a, b);
    }
    assert forall|a: T, b: T, c: T| #[trigger] leq(a, b) && #[trigger] leq(b, c) implies leq(
        a,
        c,
    ) by {
        T::lemma_le_transitive(a, b, c);
    }
}

/// The sequence is ordered by each element's natural order, weakly
/// ascending.
pub open spec fn seq_is_ascending<T: TotalOrder>(s: Seq<T>) -> bool {
    forall|i: int, j: int| 0 <= i < j < s.len() ==> #[trigger] T::le(s[i], s[j])
}

/// The sequence is ordered by each element's natural order, weakly
/// descending.
pub open spec fn seq_is_descending<T: TotalOrder>(s: Seq<T>) -> bool {
    forall|i: int, j: int| 0 <= i < j < s.len() ==> #[trigger] T::le(s[j], s[i])
}

/// An element type with a natural total order of its own, decided exactly by
/// an executable three-way comparison.
pub trait TotalOrder: Sized {
    /// The order itself, as a mathematical relation.
    spec fn le(self, other: Self) -> bool;

    /// Any two values are related in at least one direction.
    proof fn lemma_le_connected(a: Self, b: Self)
        ensures
            Self::le(a, b) || Self::le(b, a),
    ;

    /// The order is transitive.
    proof fn lemma_le_transitive(a: Self, b: Self, c: Self)
        requires
            Self::le(a, b),
            Self::le(b, c),
        ensures
            Self::le(a, c),
    ;

    /// Three-way comparison deciding `le` exactly.
    fn compare(&self, other: &Self) -> (o: Ordering)
        ensures
            (o == Ordering::Greater <==> !Self::le(*self, *other)),
            (o == Ordering::Less <==> !Self::le(*other, *self)),
            (o == Ordering::Equal <==> Self::le(*self, *other) && Self::le(*other, *self)),
    ;
}

impl TotalOrder for u8 {
    open spec fn le(self, other: Self) -> bool {
        self <= other
    }

    proof fn lemma_le_connected(a: Self, b: Self) {
    }

    proof fn lemma_le_transitive(a: Self, b: Self, c: Self) {
    }

    fn compare(&self, other: &Self) -> (o: Ordering) {
        if *self < *other {
            Ordering::Less
        } else if *self == *other {
            Ordering::Equal
        } else {
            Ordering::Greater
        }
    }
}

impl TotalOrder for u16 {
    open spec fn le(self, other: Self) -> bool {
        self <= other
    }

    proof fn lemma_le_connected(a: Self, b: Self) {
    }

    proof fn lemma_le_transitive(a: Self, b: Self, c: Self) {
    }

    fn compare(&self, other: &Self) -> (o: Ordering) {
        if *self < *other {
            Ordering::Less
        } else if *self == *other {
            Ordering::Equal
        } else {
            Ordering::Greater
        }
    }
}

impl TotalOrder for u32 {
    open spec fn le(self, other: Self) -> bool {
        self <= other
    }

    proof fn lemma_le_connected(a: Self, b: Self) {
    }

    proof fn lemma_le_transitive(a: Self, b: Self, c: Self) {
    }

    fn compare(&self, other: &Self) -> (o: Ordering) {
        if *self < *other {
            Ordering::Less
        } else if *self == *other {
            Ordering::Equal
        } else {
            Ordering::Greater
        }
    }
}

impl TotalOrder for u64 {
    open spec fn le(self, other: Self) -> bool {
        self <= other
    }

    proof fn lemma_le_connected(a: Self, b: Self) {
    }

    proof fn lemma_le_transitive(a: Self, b: Self, c: Self) {
    }

    fn compare(&self, other: &Self) -> (o: Ordering) {
        if *self < *other {
            Ordering::Less
        } else if *self == *other {
            Ordering::Equal
        } else {
            Ordering::Greater
        }
    }
}

impl TotalOrder for usize {
    open spec fn le(self, other: Self) -> bool {
        self <= other
    }

    proof fn lemma_le_connected(a: Self, b: Self) {
    }

    proof fn lemma_le_transitive(a: Self, b: Self, c: Self) {
    }

    fn compare(&self, other: &Self) -> (o: Ordering) {
        if *self < *other {
            Ordering::Less
        } else if *self == *other {
            Ordering::Equal
        } else {
            Ordering::Greater
        }
    }
}

impl TotalOrder for i32 {
    open spec fn le(self, other: Self) -> bool {
        self <= other
    }

    proof fn lemma_le_connected(a: Self, b: Self) {
    }

    proof fn lemma_le_transitive(a: Self, b: Self, c: Self) {
    }

    fn compare(&self, other: &Self) -> (o: Ordering) {
        if *self < *other {
            Ordering::Less
        } else if *self == *other {
            Ordering::Equal
        } else {
            Ordering::Greater
        }
    }
}

impl TotalOrder for i64 {
    open spec fn le(self, other: Self) -> bool {
        self <= other
    }

    proof fn lemma_le_connected(a: Self, b: Self) {
    }

    proof fn lemma_le_transitive(a: Self, b: Self, c: Self) {
    }

    fn compare(&self, other: &Self) -> (o: Ordering) {
        if *self < *other {
            Ordering::Less
        } else if *self == *other {
            Ordering::Equal
        } else {
            Ordering::Greater
        }
    }
}

/// Lexicographic weak order on byte strings: the shorter run of equal bytes
/// comes first, and at the first differing position the smaller byte wins.
/// This is exactly the order `str` carries, since UTF-8 encodings compare
/// bytewise the way their scalar values do.
pub open spec fn lex_le(a: Seq<u8>, b: Seq<u8>) -> bool
    decreases a.len(),
{
    if a.len() == 0 {
        true
    } else if b.len() == 0 {
        false
    } else if a[0] != b[0] {
        a[0] < b[0]
    } else {
        lex_le(a.drop_first(), b.drop_first())
    }
}

/// Every byte string is at most itself.
pub proof fn lemma_lex_reflexive(a: Seq<u8>)
    ensures
        lex_le(a, a),
    decreases a.len(),
{
    if a.len() > 0 {
        lemma_lex_reflexive(a.drop_first());
    }
}

/// Any two byte strings are related in at least one direction.
pub proof fn lemma_lex_connected(a: Seq<u8>, b: Seq<u8>)
    ensures
        lex_le(a, b) || lex_le(b, a),
    decreases a.len(),
{
    if a.len() > 0 && b.len() > 0 && a[0] == b[0] {
        lemma_lex_connected(a.drop_first(), b.drop_first());
    }
}

/// The lexicographic order chains.
pub proof fn lemma_lex_transitive(a: Seq<u8>, b: Seq<u8>, c: Seq<u8>)
    requires
        lex_le(a, b),
        lex_le(b, c),
    ensures
        lex_le(a, c),
    decreases a.len(),
{
    if a.len() == 0 || b.len() == 0 || c.len() == 0 {
    } else if a[0] == b[0] && b[0] == c[0] {
        lemma_lex_transitive(a.drop_first(), b.drop_first(), c.drop_first());
    }
}

/// When the first `i` bytes agree and then `a` either ends or shows the
/// smaller byte, `a` comes strictly first.
proof fn lemma_lex_first_diff(a: Seq<u8>, b: Seq<u8>, i: int)
    requires
        0 <= i <= a.len(),
        i <= b.len(),
        forall|k: int| 0 <= k < i ==> a[k] == b[k],
        (i < a.len() && i < b.len() && a[i] < b[i]) || (i == a.len() && i < b.len()),
    ensures
        lex_le(a, b),
        !lex_le(b, a),
    decreases i,
{
    if i == 0 {
    } else {
        assert(a[0] == b[0]);
        let at = a.drop_first();
        let bt = b.drop_first();
        assert forall|k: int| 0 <= k < i - 1 implies at[k] == bt[k] by {
            assert(a[k + 1] == b[k + 1]);
        }
        if i < a.len() {
            assert(at[i - 1] == a[i] && bt[i - 1] == b[i]);
        }
        lemma_lex_first_diff(at, bt, i - 1);
    }
}

impl<'a> TotalOrder for &'a str {
    open spec fn le(self, other: Self) -> bool {
        lex_le(self.spec_bytes(), other.spec_bytes())
    }

    proof fn lemma_le_connected(a: Self, b: Self) {
        lemma_lex_connected(a.spec_bytes(), b.spec_bytes());
    }

    proof fn lemma_le_transitive(a: Self, b: Self, c: Self) {
        lemma_lex_transitive(a.spec_bytes(), b.spec_bytes(), c.spec_bytes());
    }

    fn compare(&self, other: &Self) -> (o: Ordering) {
        let a: &[u8] = self.as_bytes();
        let b: &[u8] = other.as_bytes();
        let alen = a.len();
        let blen = b.len();
        let mut i: usize = 0;
        while i < alen && i < blen
            invariant
                alen == a@.len(),
                blen == b@.len(),
                a@ == self.spec_bytes(),
                b@ == other.spec_bytes(),
                0 <= i <= alen,
                i <= blen,
                forall|k: int| 0 <= k < i ==> a@[k] == b@[k],
            decreases alen - i,
        {
            let ca = *vstd::slice::slice_index_get(a, i);
            let cb = *vstd::slice::slice_index_get(b, i);
            if ca < cb {
                proof {
                    lemma_lex_first_diff(a@, b@, i as int);
                }
                return Ordering::Less;
            }
            if cb < ca {
                proof {
                    lemma_lex_first_diff(b@, a@, i as int);
                }
                return Ordering::Greater;
            }
            i = i + 1;
        }
        if alen == blen {
            proof {
                assert(a@ =~= b@);
                lemma_lex_reflexive(a@);
            }
            Ordering::Equal
        } else if alen < blen {
            proof {
                lemma_lex_first_diff(a@, b@, i as int);
            }
            Ordering::Less
        } else {
            proof {
                lemma_lex_first_diff(b@, a@, i as int);
            }
            Ordering::Greater
        }
    }
}

} // verus!
