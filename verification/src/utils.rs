//! Black-box collaborators of the sorter: deterministic pseudo-random test
//! data and sortedness checks.

use vstd::prelude::*;

verus! {

use crate::order::{seq_is_ascending, seq_is_descending, TotalOrder};

/// What the fixed-seed generator yields for each requested length. The seed
/// is a constant and the generator a pure function of its state, so the
/// values are a function of `n` alone: every call with the same `n` returns
/// the same sequence, on every run and every machine.
pub uninterp spec fn gen_u32s(n: nat) -> Seq<u32>;

/// Relies on `rand_pcg::Pcg64Mcg` (seeded with a fixed constant, so every
/// run sees the same data) and `rand`'s `Standard` distribution, whose
/// sampling iterator is endless: taking `n` values from it yields exactly
/// `n`.
#[verifier::external_body]
pub fn new_u32_vec(n: usize) -> (r: Vec<u32>)
    ensures
        r@.len() == n,
        r@ == gen_u32s(n as nat),
{
    let rng = <rand_pcg::Pcg64Mcg as rand::SeedableRng>::from_seed([0; 16]);
    rand::Rng::sample_iter(rng, &rand::distributions::Standard).take(n).collect()
}

/// Reports whether the vector is weakly ascending.
pub fn is_sorted_ascending<T: TotalOrder>(x: &Vec<T>) -> (r: bool)
    ensures
        r == seq_is_ascending(x@),
{
    let n = x.len();
    if n == 0 {
        return true;
    }
    let mut i: usize = 0;
    while i < n - 1
        invariant
            n == x@.len(),
            1 <= n,
            0 <= i <= n - 1,
            forall|k: int| 0 <= k < i ==> #[trigger] T::le(x@[k], x@[k + 1]),
        decreases n - i,
    {
        if matches!(x[i].compare(&x[i + 1]), core::cmp::Ordering::Greater) {
            assert(!T::le(x@[i as int], x@[i + 1]));
            return false;
        }
        i = i + 1;
    }
    proof {
        lemma_adjacent_ascending(x@);
    }
    true
}

/// Reports whether the vector is weakly descending.
pub fn is_sorted_descending<T: TotalOrder>(x: &Vec<T>) -> (r: bool)
    ensures
        r == seq_is_descending(x@),
{
    let n = x.len();
    if n == 0 {
        return true;
    }
    let mut i: usize = 0;
    while i < n - 1
        invariant
            n == x@.len(),
            1 <= n,
            0 <= i <= n - 1,
            forall|k: int| 0 <= k < i ==> #[trigger] T::le(x@[k + 1], x@[k]),
        decreases n - i,
    {
        if matches!(x[i].compare(&x[i + 1]), core::cmp::Ordering::Less) {
            assert(!T::le(x@[i + 1], x@[i as int]));
            return false;
        }
        i = i + 1;
    }
    proof {
        lemma_adjacent_descending(x@);
    }
    true
}

/// Adjacent ascending steps chain into the full ascending order.
proof fn lemma_adjacent_ascending<T: TotalOrder>(s: Seq<T>)
    requires
        forall|k: int| 0 <= k < s.len() - 1 ==> #[trigger] T::le(s[k], s[k + 1]),
    ensures
        seq_is_ascending(s),
{
    assert forall|i: int, j: int| 0 <= i < j < s.len() implies #[trigger] T::le(s[i], s[j]) by {
        lemma_chain_ascending(s, i, j);
    }
}

/// Adjacent descending steps chain into the full descending order.
proof fn lemma_adjacent_descending<T: TotalOrder>(s: Seq<T>)
    requires
        forall|k: int| 0 <= k < s.len() - 1 ==> #[trigger] T::le(s[k + 1], s[k]),
    ensures
        seq_is_descending(s),
{
    assert forall|i: int, j: int| 0 <= i < j < s.len() implies #[trigger] T::le(s[j], s[i]) by {
        lemma_chain_descending(s, i, j);
    }
}

proof fn lemma_chain_ascending<T: TotalOrder>(s: Seq<T>, i: int, j: int)
    requires
        forall|k: int| 0 <= k < s.len() - 1 ==> #[trigger] T::le(s[k], s[k + 1]),
        0 <= i < j < s.len(),
    ensures
        T::le(s[i], s[j]),
    decreases j - i,
{
    if i + 1 == j {
        assert(T::le(s[i], s[i + 1]));
    } else {
        lemma_chain_ascending(s, i, j - 1);
        assert(T::le(s[j - 1], s[j - 1 + 1]));
        T::lemma_le_transitive(s[i], s[j - 1], s[j]);
    }
}

proof fn lemma_chain_descending<T: TotalOrder>(s: Seq<T>, i: int, j: int)
    requires
        forall|k: int| 0 <= k < s.len() - 1 ==> #[trigger] T::le(s[k + 1], s[k]),
        0 <= i < j < s.len(),
    ensures
        T::le(s[j], s[i]),
    decreases j - i,
{
    if i + 1 == j {
        assert(T::le(s[i + 1], s[i]));
    } else {
        lemma_chain_descending(s, i, j - 1);
        assert(T::le(s[j - 1 + 1], s[j - 1]));
        T::lemma_le_transitive(s[j], s[j - 1], s[i]);
    }
}

} // verus!
