//! The sorting network itself: entry points, the bitonic builder, the bitonic
//! merger and the compare-and-swap leaf step.

use vstd::prelude::*;

verus! {

use core::cmp::Ordering;
use crate::order::{callable_on_all, classifier_respects, consistent_with, flipped,
    lemma_flipped_total_preorder, lemma_natural_leq_total_preorder, natural_leq, seq_is_ascending,
    seq_is_descending, total_preorder, TotalOrder};
use crate::zero_one::{bitonic01, image, lemma_block_halves, lemma_count_false_zero,
    lemma_count_true_zero, lemma_image_multiset, lemma_merge01, lemma_seam_forward, oriented01,
    rev_sorted01, sorted01};
use crate::{ShapeError, SortOrder};
use vstd::relations::{antisymmetric, reflexive, sorted_by};

/// The default parallelism threshold: at a split, half-windows of at least
/// this many elements are worth scheduling concurrently; smaller ones run one
/// after the other on the current thread. A fixed, tunable constant, never
/// derived from run-time conditions.
pub const PARALLEL_THRESHOLD: usize = 4096;

/// The parallelism threshold policy, consulted at every split: the two
/// half-windows run concurrently exactly when each holds at least
/// `threshold` elements. The recursion verified here computes the same
/// result whichever answer comes back — the policy picks a schedule, never
/// an outcome — so the execution layer is free to act on it.
pub fn splits_concurrently(half_len: usize, threshold: usize) -> (r: bool)
    ensures
        r == (half_len >= threshold),
{
    half_len >= threshold
}

/// A power of two: 1, 2, 4, 8, ...
pub open spec fn is_pow2(n: nat) -> bool
    decreases n,
{
    if n == 0 {
        false
    } else if n == 1 {
        true
    } else {
        n % 2 == 0 && is_pow2(n / 2)
    }
}

/// The lengths the network accepts: the empty sequence, or a power of two.
/// Accepting zero is a deliberate choice: the recursion's base case handles
/// it without ever splitting, so nothing forces a rejection.
pub open spec fn sortable_len(n: nat) -> bool {
    n == 0 || is_pow2(n)
}

/// Decides `sortable_len` by halving out every factor of two.
fn is_sortable_len(n: usize) -> (r: bool)
    ensures
        r == sortable_len(n as nat),
{
    if n == 0 {
        return true;
    }
    let mut m: usize = n;
    while m % 2 == 0
        invariant
            1 <= m,
            is_pow2(n as nat) <==> is_pow2(m as nat),
        decreases m,
    {
        m = m / 2;
    }
    m == 1
}

/// The contiguous window of `len` elements starting at `lo`.
pub open spec fn window<T>(s: Seq<T>, lo: int, len: int) -> Seq<T> {
    s.subrange(lo, lo + len)
}

/// Everything outside the window kept its place and its value.
pub open spec fn unchanged_outside<T>(pre: Seq<T>, post: Seq<T>, lo: int, len: int) -> bool {
    &&& post.len() == pre.len()
    &&& forall|k: int|
        0 <= k < pre.len() && !(lo <= k < lo + len) ==> post[k] == pre[k]
}

/// The answer on which a pair is exchanged: `Greater` when aiming ascending,
/// `Less` when aiming descending.
pub open spec fn swap_condition(forward: bool) -> Ordering {
    if forward {
        Ordering::Greater
    } else {
        Ordering::Less
    }
}

/// One column of the compare-and-swap step, settled: the comparator could
/// answer `o` on the old pair, and the pair was exchanged exactly when `o`
/// met the swap condition.
pub open spec fn column_done<T, F: Fn(&T, &T) -> Ordering>(
    f: F,
    forward: bool,
    pre: Seq<T>,
    post: Seq<T>,
    lo: int,
    half: int,
    i: int,
) -> bool {
    exists|o: Ordering|
        {
            &&& #[trigger] call_ensures(f, (&pre[lo + i], &pre[lo + half + i]), o)
            &&& if o == swap_condition(forward) {
                post[lo + i] == pre[lo + half + i] && post[lo + half + i] == pre[lo + i]
            } else {
                post[lo + i] == pre[lo + i] && post[lo + half + i] == pre[lo + half + i]
            }
        }
}

/// Relies on the standard library's `<[T]>::swap`: the two positions exchange
/// their values and every other position keeps its value; out-of-bounds
/// indices would panic there, so they are excluded here.
#[verifier::external_body]
fn exchange<T>(x: &mut Vec<T>, a: usize, b: usize)
    requires
        a < old(x)@.len(),
        b < old(x)@.len(),
    ensures
        final(x)@ == old(x)@.update(a as int, old(x)@[b as int]).update(b as int, old(x)@[a as int]),
{
    x.swap(a, b);
}

/// Exchanging two places of a sequence leaves its multiset of elements as it
/// was.
proof fn lemma_swap_to_multiset<T>(s: Seq<T>, i: int, j: int)
    requires
        0 <= i < j < s.len(),
    ensures
        s.update(i, s[j]).update(j, s[i]).to_multiset() == s.to_multiset(),
{
    broadcast use vstd::seq_lib::lemma_multiset_commutative;

    let t = s.update(i, s[j]).update(j, s[i]);
    let a = s.subrange(0, i);
    let b = s.subrange(i + 1, j);
    let c = s.subrange(j + 1, s.len() as int);
    assert(s =~= a + seq![s[i]] + b + seq![s[j]] + c);
    assert(t =~= a + seq![s[j]] + b + seq![s[i]] + c);
    assert(s.to_multiset() =~= t.to_multiset()) by {
        assert((a + seq![s[i]] + b + seq![s[j]] + c).to_multiset() == a.to_multiset().add(
            seq![s[i]].to_multiset(),
        ).add(b.to_multiset()).add(seq![s[j]].to_multiset()).add(c.to_multiset()));
        assert((a + seq![s[j]] + b + seq![s[i]] + c).to_multiset() == a.to_multiset().add(
            seq![s[j]].to_multiset(),
        ).add(b.to_multiset()).add(seq![s[i]].to_multiset()).add(c.to_multiset()));
    }
}

/// The compare-and-swap leaf step over the window of `2 * half` elements at
/// `lo`: each element of the lower half is compared with its partner `half`
/// places above, and the pair is exchanged when the comparator's answer
/// equals the swap condition of `forward`.
fn compare_and_swap<T, F: Fn(&T, &T) -> Ordering>(
    x: &mut Vec<T>,
    lo: usize,
    half: usize,
    forward: bool,
    comparator: &F,
)
    requires
        callable_on_all(*comparator),
        lo + 2 * half <= old(x).len(),
    ensures
        final(x)@.len() == old(x)@.len(),
        unchanged_outside(old(x)@, final(x)@, lo as int, 2 * half as int),
        forall|i: int|
            0 <= i < half ==> column_done(
                *comparator,
                forward,
                old(x)@,
                final(x)@,
                lo as int,
                half as int,
                i,
            ),
        window(final(x)@, lo as int, 2 * half as int).to_multiset() == window(
            old(x)@,
            lo as int,
            2 * half as int,
        ).to_multiset(),
{
    let mut i: usize = 0;
    while i < half
        invariant
            callable_on_all(*comparator),
            lo + 2 * half <= old(x).len(),
            x.len() == old(x).len(),
            0 <= i <= half,
            unchanged_outside(old(x)@, x@, lo as int, 2 * half as int),
            forall|j: int|
                0 <= j < i ==> column_done(
                    *comparator,
                    forward,
                    old(x)@,
                    x@,
                    lo as int,
                    half as int,
                    j,
                ),
            forall|j: int| #![trigger x@[lo + j]]
                i <= j < half ==> x@[lo + j] == old(x)@[lo + j],
            forall|j: int| #![trigger x@[lo + half + j]]
                i <= j < half ==> x@[lo + half + j] == old(x)@[lo + half + j],
            window(x@, lo as int, 2 * half as int).to_multiset() == window(
                old(x)@,
                lo as int,
                2 * half as int,
            ).to_multiset(),
        decreases half - i,
    {
        let ghost pre_iter = x@;
        let o = comparator(&x[lo + i], &x[lo + half + i]);
        let must_swap = if forward {
            matches!(o, Ordering::Greater)
        } else {
            matches!(o, Ordering::Less)
        };
        if must_swap {
            exchange(x, lo + i, lo + half + i);
            proof {
                let wpre = window(pre_iter, lo as int, 2 * half as int);
                let wpost = window(x@, lo as int, 2 * half as int);
                assert(wpost =~= wpre.update(i as int, wpre[half + i]).update(
                    half + i,
                    wpre[i as int],
                ));
                lemma_swap_to_multiset(wpre, i as int, half + i);
            }
        }
        proof {
            let pre = old(x)@;
            let prev = pre_iter;
            let l = lo as int;
            let h = half as int;
            assert(call_ensures(*comparator, (&pre[l + i], &pre[l + h + i]), o));
            if must_swap {
                assert(x@ == prev.update(l + i, prev[l + h + i]).update(l + h + i, prev[l + i]));
            }
            assert forall|j: int| 0 <= j < i + 1 implies column_done(
                *comparator,
                forward,
                pre,
                x@,
                l,
                h,
                j,
            ) by {
                if j < i {
                    assert(column_done(*comparator, forward, pre, prev, l, h, j));
                    let oj = choose|oj: Ordering|
                        {
                            &&& #[trigger] call_ensures(*comparator, (&pre[l + j], &pre[l + h + j]), oj)
                            &&& if oj == swap_condition(forward) {
                                prev[l + j] == pre[l + h + j] && prev[l + h + j] == pre[l + j]
                            } else {
                                prev[l + j] == pre[l + j] && prev[l + h + j] == pre[l + h + j]
                            }
                        };
                    assert(x@[l + j] == prev[l + j]);
                    assert(x@[l + h + j] == prev[l + h + j]);
                    assert(call_ensures(*comparator, (&pre[l + j], &pre[l + h + j]), oj));
                } else {
                    assert(prev[l + i] == pre[l + i] && prev[l + h + i] == pre[l + h + i]);
                    if must_swap {
                        assert(o == swap_condition(forward));
                        assert(x@[l + i] == pre[l + h + i] && x@[l + h + i] == pre[l + i]);
                    } else {
                        assert(o != swap_condition(forward));
                        assert(x@[l + i] == pre[l + i] && x@[l + h + i] == pre[l + h + i]);
                    }
                }
            }
            assert forall|j: int| #![trigger x@[lo + j], x@[lo + half + j]]
                i + 1 <= j < half implies x@[lo + j] == pre[lo + j] && x@[lo + half + j] == pre[lo
                + half + j] by {
                assert(prev[lo + j] == pre[lo + j]);
                assert(prev[lo + half + j] == pre[lo + half + j]);
                assert(x@[lo + j] == prev[lo + j]);
                assert(x@[lo + half + j] == prev[lo + half + j]);
            }
            assert(window(x@, l, 2 * h).to_multiset() == window(pre, l, 2 * h).to_multiset());
        }
        i = i + 1;
    }
}

/// A power of two above one splits into two equal power-of-two halves.
proof fn lemma_pow2_split(n: nat)
    requires
        is_pow2(n),
        n > 1,
    ensures
        n % 2 == 0,
        is_pow2(n / 2),
        n / 2 + n / 2 == n,
        n / 2 >= 1,
{
}

/// Reads one compare-and-swap pass through a classifier the comparator
/// respects: afterwards the shadow's lower half holds, place by place, the
/// conjunction of the two antipodal places (ascending) or their disjunction
/// (descending), and the upper half the other one.
proof fn lemma_columns_image<T, F: Fn(&T, &T) -> Ordering>(
    f: F,
    forward: bool,
    pre: Seq<T>,
    post: Seq<T>,
    l: int,
    m2: int,
    hcl: spec_fn(T) -> bool,
)
    requires
        classifier_respects(hcl, f),
        0 <= l,
        0 <= m2,
        l + 2 * m2 <= pre.len(),
        post.len() == pre.len(),
        forall|i: int| 0 <= i < m2 ==> column_done(f, forward, pre, post, l, m2, i),
    ensures
        forall|i: int| #![trigger post[l + i]]
            0 <= i < m2 ==> hcl(post[l + i]) == (if forward {
                hcl(pre[l + i]) && hcl(pre[l + m2 + i])
            } else {
                hcl(pre[l + i]) || hcl(pre[l + m2 + i])
            }),
        forall|i: int| #![trigger post[l + m2 + i]]
            0 <= i < m2 ==> hcl(post[l + m2 + i]) == (if forward {
                hcl(pre[l + i]) || hcl(pre[l + m2 + i])
            } else {
                hcl(pre[l + i]) && hcl(pre[l + m2 + i])
            }),
{
    assert forall|i: int| #![trigger post[l + i]] #![trigger post[l + m2 + i]]
        0 <= i < m2 implies {
        &&& hcl(post[l + i]) == (if forward {
            hcl(pre[l + i]) && hcl(pre[l + m2 + i])
        } else {
            hcl(pre[l + i]) || hcl(pre[l + m2 + i])
        })
        &&& hcl(post[l + m2 + i]) == (if forward {
            hcl(pre[l + i]) || hcl(pre[l + m2 + i])
        } else {
            hcl(pre[l + i]) && hcl(pre[l + m2 + i])
        })
    } by {
        assert(column_done(f, forward, pre, post, l, m2, i));
        let o = choose|o: Ordering|
            {
                &&& #[trigger] call_ensures(f, (&pre[l + i], &pre[l + m2 + i]), o)
                &&& if o == swap_condition(forward) {
                    post[l + i] == pre[l + m2 + i] && post[l + m2 + i] == pre[l + i]
                } else {
                    post[l + i] == pre[l + i] && post[l + m2 + i] == pre[l + m2 + i]
                }
            };
        assert(call_ensures(f, (&pre[l + i], &pre[l + m2 + i]), o));
        let pa = hcl(pre[l + i]);
        let pb = hcl(pre[l + m2 + i]);
        match o {
            Ordering::Less => {
                assert(pa ==> pb);
            },
            Ordering::Equal => {
                assert(pa == pb);
            },
            Ordering::Greater => {
                assert(pb ==> pa);
            },
        }
    }
}

/// The bitonic merger: the window of `len` elements at `lo` is already
/// bitonic, and comes out monotonic in the direction of `forward`. One
/// compare-and-swap pass leaves two half-windows, each bitonic and each
/// entirely on its own side; the two halves are then merged recursively in
/// the same direction.
fn sub_sort<T, F: Fn(&T, &T) -> Ordering>(
    x: &mut Vec<T>,
    lo: usize,
    len: usize,
    forward: bool,
    comparator: &F,
)
    requires
        callable_on_all(*comparator),
        lo + len <= old(x).len(),
        sortable_len(len as nat),
    ensures
        final(x)@.len() == old(x)@.len(),
        unchanged_outside(old(x)@, final(x)@, lo as int, len as int),
        window(final(x)@, lo as int, len as int).to_multiset() == window(
            old(x)@,
            lo as int,
            len as int,
        ).to_multiset(),
        forall|hcl: spec_fn(T) -> bool|
            #[trigger] classifier_respects(hcl, *comparator) && bitonic01(
                image(window(old(x)@, lo as int, len as int), hcl),
            ) ==> oriented01(image(window(final(x)@, lo as int, len as int), hcl), forward),
    decreases len,
{
    if len > 1 {
        proof {
            lemma_pow2_split(len as nat);
        }
        let half = len / 2;
        let ghost s0 = x@;
        compare_and_swap(x, lo, half, forward, comparator);
        let ghost s1 = x@;
        sub_sort(x, lo, half, forward, comparator);
        let ghost s2 = x@;
        sub_sort(x, lo + half, half, forward, comparator);
        proof {
            lemma_two_phase_stitch(s0, s1, s2, x@, lo as int, half as int);
            let l = lo as int;
            let m2 = half as int;
            let n = len as int;
            assert(2 * m2 == n);
            let w0 = window(s0, l, n);
            assert forall|hcl: spec_fn(T) -> bool|
                #[trigger] classifier_respects(hcl, *comparator) && bitonic01(
                    image(w0, hcl),
                ) implies oriented01(image(window(x@, l, n), hcl), forward) by {
                let z = image(w0, hcl);
                let zl1 = image(window(s1, l, m2), hcl);
                let zh1 = image(window(s1, l + m2, m2), hcl);
                lemma_columns_image(*comparator, forward, s0, s1, l, m2, hcl);
                assert forall|i: int| #![trigger zl1[i]] 0 <= i < m2 implies zl1[i] == (if forward {
                    z[i] && z[m2 + i]
                } else {
                    z[i] || z[m2 + i]
                }) by {
                    assert(zl1[i] == hcl(s1[l + i]));
                    assert(z[i] == hcl(s0[l + i]) && z[m2 + i] == hcl(s0[l + m2 + i]));
                }
                assert forall|i: int| #![trigger zh1[i]] 0 <= i < m2 implies zh1[i] == (if forward {
                    z[i] || z[m2 + i]
                } else {
                    z[i] && z[m2 + i]
                }) by {
                    assert(zh1[i] == hcl(s1[l + m2 + i]));
                    assert(z[i] == hcl(s0[l + i]) && z[m2 + i] == hcl(s0[l + m2 + i]));
                }
                if forward {
                    lemma_block_halves(z, zl1, zh1, m2);
                } else {
                    lemma_block_halves(z, zh1, zl1, m2);
                }
                let zl2 = image(window(s2, l, m2), hcl);
                assert(oriented01(zl2, forward));
                assert(window(s2, l + m2, m2) =~= window(s1, l + m2, m2));
                let zhf = image(window(x@, l + m2, m2), hcl);
                assert(oriented01(zhf, forward));
                assert(window(x@, l, m2) =~= window(s2, l, m2));
                let zlf = image(window(x@, l, m2), hcl);
                assert(zlf =~= zl2);
                lemma_image_multiset(window(s2, l, m2), window(s1, l, m2), hcl);
                lemma_image_multiset(window(x@, l + m2, m2), window(s2, l + m2, m2), hcl);
                assert(zlf.to_multiset() == zl1.to_multiset());
                assert(zhf.to_multiset() == zh1.to_multiset()) by {
                    assert(image(window(s2, l + m2, m2), hcl) =~= zh1);
                }
                let zf = image(window(x@, l, n), hcl);
                assert(zf.subrange(0, m2) =~= zlf);
                assert(zf.subrange(m2, n) =~= zhf);
                assert forall|k: int| 0 <= k < m2 implies #[trigger] zf[k] == zlf[k] && zf[m2 + k]
                    == zhf[k] by {
                    assert(zf.subrange(0, m2)[k] == zf[k]);
                    assert(zf.subrange(m2, n)[k] == zf[m2 + k]);
                }
                if forward {
                    if forall|i: int| 0 <= i < m2 ==> !(#[trigger] zl1[i]) {
                        lemma_count_true_zero(zl1);
                        lemma_count_true_zero(zlf);
                        assert(forall|i: int| 0 <= i < m2 ==> !(#[trigger] zlf[i]));
                        assert forall|i: int| 0 <= i < m2 implies !(#[trigger] zf[i]) by {
                            assert(!zlf[i]);
                        }
                    } else {
                        assert(forall|i: int| 0 <= i < m2 ==> #[trigger] zh1[i]);
                        lemma_count_false_zero(zh1);
                        lemma_count_false_zero(zhf);
                        assert forall|j: int| m2 <= j < n implies #[trigger] zf[j] by {
                            assert(zhf[j - m2]);
                        }
                    }
                } else {
                    if forall|i: int| 0 <= i < m2 ==> !(#[trigger] zh1[i]) {
                        lemma_count_true_zero(zh1);
                        lemma_count_true_zero(zhf);
                        assert(forall|i: int| 0 <= i < m2 ==> !(#[trigger] zhf[i]));
                        assert forall|j: int| m2 <= j < n implies !(#[trigger] zf[j]) by {
                            assert(!zhf[j - m2]);
                        }
                    } else {
                        assert(forall|i: int| 0 <= i < m2 ==> #[trigger] zl1[i]);
                        lemma_count_false_zero(zl1);
                        lemma_count_false_zero(zlf);
                        assert forall|i: int| 0 <= i < m2 implies #[trigger] zf[i] by {
                            assert(zlf[i]);
                        }
                    }
                }
                lemma_merge01(zf, m2, forward);
            }
        }
    } else {
        proof {
            assert forall|hcl: spec_fn(T) -> bool|
                #[trigger] classifier_respects(hcl, *comparator) && bitonic01(
                    image(window(old(x)@, lo as int, len as int), hcl),
                ) implies oriented01(image(window(x@, lo as int, len as int), hcl), forward) by {
                assert(image(window(x@, lo as int, len as int), hcl).len() <= 1);
            }
        }
    }
}

/// The bitonic builder: sorts the lower half ascending and the upper half
/// descending — whatever the caller's own direction — so that the whole
/// window is bitonic, then merges the window in the caller's direction.
fn do_sort<T, F: Fn(&T, &T) -> Ordering>(
    x: &mut Vec<T>,
    lo: usize,
    len: usize,
    forward: bool,
    comparator: &F,
)
    requires
        callable_on_all(*comparator),
        lo + len <= old(x).len(),
        sortable_len(len as nat),
    ensures
        final(x)@.len() == old(x)@.len(),
        unchanged_outside(old(x)@, final(x)@, lo as int, len as int),
        window(final(x)@, lo as int, len as int).to_multiset() == window(
            old(x)@,
            lo as int,
            len as int,
        ).to_multiset(),
        forall|hcl: spec_fn(T) -> bool|
            #[trigger] classifier_respects(hcl, *comparator) ==> oriented01(
                image(window(final(x)@, lo as int, len as int), hcl),
                forward,
            ),
    decreases len,
{
    if len > 1 {
        proof {
            lemma_pow2_split(len as nat);
        }
        let half = len / 2;
        let ghost s0 = x@;
        do_sort(x, lo, half, true, comparator);
        let ghost s1 = x@;
        do_sort(x, lo + half, half, false, comparator);
        let ghost s2 = x@;
        proof {
            lemma_halves_stitch(s0, s1, s2, lo as int, half as int);
        }
        sub_sort(x, lo, len, forward, comparator);
        proof {
            assert(window(x@, lo as int, len as int).to_multiset() == window(
                s0,
                lo as int,
                len as int,
            ).to_multiset());
            let l = lo as int;
            let m2 = half as int;
            let n = len as int;
            assert(2 * m2 == n);
            assert forall|hcl: spec_fn(T) -> bool|
                #[trigger] classifier_respects(hcl, *comparator) implies oriented01(
                image(window(x@, l, n), hcl),
                forward,
            ) by {
                let zlo = image(window(s2, l, m2), hcl);
                let zhi = image(window(s2, l + m2, m2), hcl);
                assert(window(s2, l, m2) =~= window(s1, l, m2));
                assert(image(window(s1, l, m2), hcl) =~= zlo);
                assert(sorted01(zlo));
                assert(rev_sorted01(zhi));
                let z2 = image(window(s2, l, n), hcl);
                assert(z2.subrange(0, m2) =~= zlo);
                assert(z2.subrange(m2, n) =~= zhi);
                lemma_seam_forward(z2, m2);
                assert(bitonic01(z2));
                assert(oriented01(image(window(x@, l, n), hcl), forward));
            }
        }
    } else {
        proof {
            assert forall|hcl: spec_fn(T) -> bool|
                #[trigger] classifier_respects(hcl, *comparator) implies oriented01(
                image(window(x@, lo as int, len as int), hcl),
                forward,
            ) by {
                assert(image(window(x@, lo as int, len as int), hcl).len() <= 1);
            }
        }
    }
}

/// Stitches the frame and multiset facts of the merger's three phases: one
/// whole-window pass, then one recursive call on each half-window.
proof fn lemma_two_phase_stitch<T>(s0: Seq<T>, s1: Seq<T>, s2: Seq<T>, s3: Seq<T>, l: int, h: int)
    requires
        0 <= l,
        0 <= h,
        l + 2 * h <= s0.len(),
        s1.len() == s0.len(),
        s2.len() == s1.len(),
        s3.len() == s2.len(),
        unchanged_outside(s0, s1, l, 2 * h),
        unchanged_outside(s1, s2, l, h),
        unchanged_outside(s2, s3, l + h, h),
        window(s1, l, 2 * h).to_multiset() == window(s0, l, 2 * h).to_multiset(),
        window(s2, l, h).to_multiset() == window(s1, l, h).to_multiset(),
        window(s3, l + h, h).to_multiset() == window(s2, l + h, h).to_multiset(),
    ensures
        unchanged_outside(s0, s3, l, 2 * h),
        window(s3, l, 2 * h).to_multiset() == window(s0, l, 2 * h).to_multiset(),
{
    broadcast use vstd::seq_lib::lemma_multiset_commutative;

    assert(window(s1, l + h, h) =~= window(s2, l + h, h));
    assert(window(s2, l, h) =~= window(s3, l, h));
    assert(window(s1, l, 2 * h) =~= window(s1, l, h) + window(s1, l + h, h));
    assert(window(s3, l, 2 * h) =~= window(s3, l, h) + window(s3, l + h, h));
    assert(window(s3, l, 2 * h).to_multiset() == window(s3, l, h).to_multiset().add(
        window(s3, l + h, h).to_multiset(),
    ));
    assert(window(s1, l, 2 * h).to_multiset() == window(s1, l, h).to_multiset().add(
        window(s1, l + h, h).to_multiset(),
    ));
}

/// Stitches the frame and multiset facts of the builder's two half-window
/// phases into facts about the whole window.
proof fn lemma_halves_stitch<T>(s0: Seq<T>, s1: Seq<T>, s2: Seq<T>, l: int, h: int)
    requires
        0 <= l,
        0 <= h,
        l + 2 * h <= s0.len(),
        s1.len() == s0.len(),
        s2.len() == s1.len(),
        unchanged_outside(s0, s1, l, h),
        unchanged_outside(s1, s2, l + h, h),
        window(s1, l, h).to_multiset() == window(s0, l, h).to_multiset(),
        window(s2, l + h, h).to_multiset() == window(s1, l + h, h).to_multiset(),
    ensures
        unchanged_outside(s0, s2, l, 2 * h),
        window(s2, l, 2 * h).to_multiset() == window(s0, l, 2 * h).to_multiset(),
{
    broadcast use vstd::seq_lib::lemma_multiset_commutative;

    assert(window(s0, l + h, h) =~= window(s1, l + h, h));
    assert(window(s1, l, h) =~= window(s2, l, h));
    assert(window(s0, l, 2 * h) =~= window(s0, l, h) + window(s0, l + h, h));
    assert(window(s2, l, 2 * h) =~= window(s2, l, h) + window(s2, l + h, h));
    assert(window(s0, l, 2 * h).to_multiset() == window(s0, l, h).to_multiset().add(
        window(s0, l + h, h).to_multiset(),
    ));
    assert(window(s2, l, 2 * h).to_multiset() == window(s2, l, h).to_multiset().add(
        window(s2, l + h, h).to_multiset(),
    ));
}

/// Sorting a sequence that is already sorted gives back the identical
/// sequence: under an antisymmetric order a sorted arrangement of a multiset
/// is unique, so any output that `sort` or `sort_by` promises — sorted, with
/// the input's multiset — must equal the sorted input itself, place by place.
pub proof fn lemma_sort_idempotent<T>(leq: spec_fn(T, T) -> bool, pre: Seq<T>, post: Seq<T>)
    requires
        total_preorder(leq),
        antisymmetric(leq),
        sorted_by(pre, leq),
        sorted_by(post, leq),
        post.to_multiset() == pre.to_multiset(),
    ensures
        post == pre,
{
    assert(reflexive(leq)) by {
        assert forall|a: T| #[trigger] leq(a, a) by {
            assert(leq(a, a) || leq(a, a));
        }
    }
    vstd::seq_lib::lemma_sorted_unique(post, pre, leq);
    assert(post =~= pre);
}

/// Determinism of the result, as far as contracts can carry it: under an
/// antisymmetric order, any two results that the entry points' contracts
/// admit for one input — each sorted, each with the input's multiset — are
/// identical, place by place, whatever execution produced them. Between
/// distinct values that tie no such promise exists, per the non-stability
/// caveat.
pub proof fn lemma_sorted_output_unique<T>(
    leq: spec_fn(T, T) -> bool,
    pre: Seq<T>,
    out1: Seq<T>,
    out2: Seq<T>,
)
    requires
        total_preorder(leq),
        antisymmetric(leq),
        sorted_by(out1, leq),
        sorted_by(out2, leq),
        out1.to_multiset() == pre.to_multiset(),
        out2.to_multiset() == pre.to_multiset(),
    ensures
        out1 == out2,
{
    lemma_sort_idempotent(leq, out1, out2);
}

/// Sorts the vector with a caller-supplied three-way comparator, provided its
/// length is a power of two (or zero). On any other length nothing is moved
/// and a `ShapeError` carrying that length comes back. The comparator must
/// admit at least one total preorder it reports on (its `requires`); the
/// output is then ascending with respect to every such preorder, and is
/// always a permutation of the input.
pub fn sort_by<T, F: Fn(&T, &T) -> Ordering>(x: &mut Vec<T>, comparator: &F) -> (r: Result<
    (),
    ShapeError,
>)
    requires
        callable_on_all(*comparator),
        exists|leq: spec_fn(T, T) -> bool| consistent_with(*comparator, leq),
    ensures
        (r is Ok <==> sortable_len(old(x).len() as nat)),
        r is Err ==> final(x)@ == old(x)@ && r == Err::<(), ShapeError>(
            (ShapeError { len: old(x).len() }),
        ),
        final(x)@.to_multiset() == old(x)@.to_multiset(),
        r is Ok ==> forall|leq: spec_fn(T, T) -> bool|
            #[trigger] consistent_with(*comparator, leq) ==> sorted_by(final(x)@, leq),
{
    let n = x.len();
    if is_sortable_len(n) {
        do_sort(x, 0, n, true, comparator);
        proof {
            assert(window(x@, 0, n as int) =~= x@);
            assert(window(old(x)@, 0, n as int) =~= old(x)@);
            assert forall|leq: spec_fn(T, T) -> bool|
                #[trigger] consistent_with(*comparator, leq) implies sorted_by(x@, leq) by {
                assert forall|i: int, j: int| 0 <= i < j < x@.len() implies #[trigger] leq(
                    x@[i],
                    x@[j],
                ) by {
                    let v = x@[j];
                    let hcl = (|t: T| !leq(t, v));
                    assert(classifier_respects(hcl, *comparator)) by {
                        assert forall|a: &T, b: &T, o: Ordering| #[trigger] call_ensures(
                            *comparator,
                            (a, b),
                            o,
                        ) implies match o {
                            Ordering::Less => hcl(*a) ==> hcl(*b),
                            Ordering::Equal => hcl(*a) == hcl(*b),
                            Ordering::Greater => hcl(*b) ==> hcl(*a),
                        } by {
                            match o {
                                Ordering::Less => {
                                    assert(leq(*a, *b));
                                    if leq(*b, v) {
                                        assert(leq(*a, v));
                                    }
                                },
                                Ordering::Equal => {
                                    assert(leq(*a, *b) && leq(*b, *a));
                                    if leq(*b, v) {
                                        assert(leq(*a, v));
                                    }
                                    if leq(*a, v) {
                                        assert(leq(*b, v));
                                    }
                                },
                                Ordering::Greater => {
                                    assert(leq(*b, *a));
                                    if leq(*a, v) {
                                        assert(leq(*b, v));
                                    }
                                },
                            }
                        }
                    }
                    assert(oriented01(image(window(x@, 0, n as int), hcl), true));
                    let z = image(x@, hcl);
                    assert(image(window(x@, 0, n as int), hcl) =~= z);
                    assert(sorted01(z));
                    assert(leq(v, v));
                    assert(z[j] == hcl(x@[j]) && !hcl(v));
                    assert(z[i] ==> z[j]);
                    assert(!hcl(x@[i]));
                }
            }
        }
        Ok(())
    } else {
        Err(ShapeError { len: n })
    }
}

/// Sorts the vector by each element's natural order, ascending or descending
/// as `order` says, provided its length is a power of two (or zero). On any
/// other length nothing is moved and a `ShapeError` carrying that length
/// comes back. The output is always a permutation of the input.
pub fn sort<T: TotalOrder>(x: &mut Vec<T>, order: &SortOrder) -> (r: Result<(), ShapeError>)
    ensures
        (r is Ok <==> sortable_len(old(x).len() as nat)),
        r is Err ==> final(x)@ == old(x)@ && r == Err::<(), ShapeError>(
            (ShapeError { len: old(x).len() }),
        ),
        final(x)@.to_multiset() == old(x)@.to_multiset(),
        (r is Ok && *order == SortOrder::Ascending) ==> seq_is_ascending(final(x)@),
        (r is Ok && *order == SortOrder::Descending) ==> seq_is_descending(final(x)@),
{
    match *order {
        SortOrder::Ascending => {
            let c = |a: &T, b: &T| -> (o: Ordering)
                ensures
                    (o == Ordering::Greater <==> !T::le(*a, *b)),
                    (o == Ordering::Less <==> !T::le(*b, *a)),
                    (o == Ordering::Equal <==> T::le(*a, *b) && T::le(*b, *a)),
                { a.compare(b) };
            proof {
                lemma_natural_leq_total_preorder::<T>();
                let leq = natural_leq::<T>();
                assert forall|a: &T, b: &T, o: Ordering| #[trigger] call_ensures(
                    c,
                    (a, b),
                    o,
                ) implies match o {
                    Ordering::Less => leq(*a, *b),
                    Ordering::Equal => leq(*a, *b) && leq(*b, *a),
                    Ordering::Greater => leq(*b, *a),
                } by {
                    T::lemma_le_connected(*a, *b);
                }
                assert(consistent_with(c, leq));
            }
            let r = sort_by(x, &c);
            proof {
                if r is Ok {
                    assert(sorted_by(x@, natural_leq::<T>()));
                    assert forall|i: int, j: int| 0 <= i < j < x@.len() implies #[trigger] T::le(
                        x@[i],
                        x@[j],
                    ) by {
                        assert(natural_leq::<T>()(x@[i], x@[j]));
                    }
                }
            }
            r
        },
        SortOrder::Descending => {
            let c = |a: &T, b: &T| -> (o: Ordering)
                ensures
                    (o == Ordering::Greater <==> !T::le(*b, *a)),
                    (o == Ordering::Less <==> !T::le(*a, *b)),
                    (o == Ordering::Equal <==> T::le(*a, *b) && T::le(*b, *a)),
                { b.compare(a) };
            proof {
                lemma_natural_leq_total_preorder::<T>();
                let leq = flipped(natural_leq::<T>());
                lemma_flipped_total_preorder(natural_leq::<T>());
                assert forall|a: &T, b: &T, o: Ordering| #[trigger] call_ensures(
                    c,
                    (a, b),
                    o,
                ) implies match o {
                    Ordering::Less => leq(*a, *b),
                    Ordering::Equal => leq(*a, *b) && leq(*b, *a),
                    Ordering::Greater => leq(*b, *a),
                } by {
                    T::lemma_le_connected(*a, *b);
                }
                assert(consistent_with(c, leq));
            }
            let r = sort_by(x, &c);
            proof {
                if r is Ok {
                    let leq = flipped(natural_leq::<T>());
                    assert(sorted_by(x@, leq));
                    assert forall|i: int, j: int| 0 <= i < j < x@.len() implies #[trigger] T::le(
                        x@[j],
                        x@[i],
                    ) by {
                        assert(leq(x@[i], x@[j]));
                        assert(natural_leq::<T>()(x@[j], x@[i]));
                    }
                }
            }
            r
        },
    }
}

} // verus!
