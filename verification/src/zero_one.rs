//! Boolean shadows of a sequence: every way of splitting the elements into
//! "small" and "large" that the comparator's answers never contradict yields
//! a sequence of booleans, and the network sorts the sequence exactly when it
//! sorts every such shadow. Shadows turn the bitonic-merge argument into
//! plain block arithmetic: a bitonic boolean circle is one circular block of
//! `true`s, and one compare-and-swap pass leaves one half constant.

use vstd::prelude::*;

verus! {

/// The boolean shadow of a sequence under the classifier `h`.
pub open spec fn image<T>(s: Seq<T>, h: spec_fn(T) -> bool) -> Seq<bool> {
    s.map_values(h)
}

/// All `false`s before all `true`s.
pub open spec fn sorted01(z: Seq<bool>) -> bool {
    forall|i: int, j: int| 0 <= i < j < z.len() && #[trigger] z[i] ==> #[trigger] z[j]
}

/// All `true`s before all `false`s.
pub open spec fn rev_sorted01(z: Seq<bool>) -> bool {
    forall|i: int, j: int| 0 <= i < j < z.len() && #[trigger] z[j] ==> #[trigger] z[i]
}

/// The shape a shadow must take for a window sorted in direction `forward`.
pub open spec fn oriented01(z: Seq<bool>, forward: bool) -> bool {
    if forward {
        sorted01(z)
    } else {
        rev_sorted01(z)
    }
}

/// How far `k` sits after `a` on a circle of `n` places.
pub open spec fn offset_in(a: int, k: int, n: int) -> int {
    if k >= a {
        k - a
    } else {
        k - a + n
    }
}

/// The `true`s of `z` are exactly the `l` places that follow `a` circularly.
pub open spec fn block01(z: Seq<bool>, a: int, l: int) -> bool {
    forall|k: int| 0 <= k < z.len() ==> (#[trigger] z[k] <==> offset_in(a, k, z.len() as int) < l)
}

/// A bitonic boolean sequence: its `true`s form one circular block.
pub open spec fn bitonic01(z: Seq<bool>) -> bool {
    z.len() == 0 || exists|a: int, l: int|
        0 <= a < z.len() && 0 <= l <= z.len() && #[trigger] block01(z, a, l)
}

/// A sorted boolean sequence is `false` up to some point and `true` after.
pub proof fn lemma_sorted01_shape(z: Seq<bool>) -> (c: int)
    requires
        sorted01(z),
    ensures
        0 <= c <= z.len(),
        forall|k: int| 0 <= k < z.len() ==> (#[trigger] z[k] <==> k >= c),
    decreases z.len(),
{
    if z.len() == 0 {
        0
    } else if !z[z.len() - 1] {
        assert forall|k: int| 0 <= k < z.len() implies !(#[trigger] z[k]) by {
            if z[k] && k < z.len() - 1 {
                assert(z[z.len() - 1]);
            }
        }
        z.len() as int
    } else {
        let zp = z.drop_last();
        assert(sorted01(zp)) by {
            assert forall|i: int, j: int|
                0 <= i < j < zp.len() && #[trigger] zp[i] implies #[trigger] zp[j] by {
                assert(z[i] == zp[i] && z[j] == zp[j]);
                assert(z[j]);
            }
        }
        let c = lemma_sorted01_shape(zp);
        assert forall|k: int| 0 <= k < z.len() implies (#[trigger] z[k] <==> k >= c) by {
            if k < z.len() - 1 {
                assert(zp[k] == z[k]);
            }
        }
        c
    }
}

/// A reverse-sorted boolean sequence is `true` up to some point and `false`
/// after.
pub proof fn lemma_rev_sorted01_shape(z: Seq<bool>) -> (c: int)
    requires
        rev_sorted01(z),
    ensures
        0 <= c <= z.len(),
        forall|k: int| 0 <= k < z.len() ==> (#[trigger] z[k] <==> k < c),
    decreases z.len(),
{
    if z.len() == 0 {
        0
    } else if !z[0] {
        assert forall|k: int| 0 <= k < z.len() implies !(#[trigger] z[k]) by {
            if z[k] && k > 0 {
                assert(z[0]);
            }
        }
        0
    } else {
        let zp = z.drop_first();
        assert(rev_sorted01(zp)) by {
            assert forall|i: int, j: int|
                0 <= i < j < zp.len() && #[trigger] zp[j] implies #[trigger] zp[i] by {
                assert(z[i + 1] == zp[i] && z[j + 1] == zp[j]);
                assert(z[i + 1]);
            }
        }
        let c = lemma_rev_sorted01_shape(zp);
        assert forall|k: int| 0 <= k < z.len() implies (#[trigger] z[k] <==> k < c + 1) by {
            if k > 0 {
                assert(zp[k - 1] == z[k]);
            }
        }
        c + 1
    }
}

/// The half-cleaner on a shadow: the pointwise `&&` of antipodal places is
/// the shadow's lower half afterwards and the pointwise `||` its upper half,
/// and when the input block is one circular block both results are blocks
/// again — one of them even constant.
pub proof fn lemma_block_halves(z: Seq<bool>, zl: Seq<bool>, zh: Seq<bool>, m: int)
    requires
        m >= 1,
        z.len() == 2 * m,
        zl.len() == m,
        zh.len() == m,
        forall|i: int| #![trigger zl[i]] 0 <= i < m ==> zl[i] == (z[i] && z[m + i]),
        forall|i: int| #![trigger zh[i]] 0 <= i < m ==> zh[i] == (z[i] || z[m + i]),
        bitonic01(z),
    ensures
        bitonic01(zl),
        bitonic01(zh),
        (forall|i: int| 0 <= i < m ==> !(#[trigger] zl[i])) || (forall|i: int|
            0 <= i < m ==> #[trigger] zh[i]),
{
    let n = 2 * m;
    let (a, l) = choose|a: int, l: int|
        0 <= a < n && 0 <= l <= n && #[trigger] block01(z, a, l);
    let a2 = if a < m {
        a
    } else {
        a - m
    };
    let lh = if l <= m {
        l
    } else {
        m
    };
    let ll = if l >= m {
        l - m
    } else {
        0
    };
    assert forall|k: int| 0 <= k < m implies (#[trigger] zh[k] <==> offset_in(a2, k, m)
        < lh) by {
        let o1 = offset_in(a, k, n);
        let o2 = offset_in(a, m + k, n);
        let oc = offset_in(a2, k, m);
        assert(zh[k] == (z[k] || z[m + k]));
        assert((o1 == oc && o2 == oc + m) || (o1 == oc + m && o2 == oc));
        assert(0 <= oc < m);
        assert(z[k] <==> o1 < l);
        assert(z[m + k] <==> o2 < l);
    }
    assert forall|k: int| 0 <= k < m implies (#[trigger] zl[k] <==> offset_in(a2, k, m)
        < ll) by {
        let o1 = offset_in(a, k, n);
        let o2 = offset_in(a, m + k, n);
        let oc = offset_in(a2, k, m);
        assert(zl[k] == (z[k] && z[m + k]));
        assert((o1 == oc && o2 == oc + m) || (o1 == oc + m && o2 == oc));
        assert(0 <= oc < m);
        assert(z[k] <==> o1 < l);
        assert(z[m + k] <==> o2 < l);
    }
    assert(block01(zh, a2, lh));
    assert(block01(zl, a2, ll));
    if l <= m {
        assert forall|i: int| 0 <= i < m implies !(#[trigger] zl[i]) by {
            assert(zl[i] <==> offset_in(a2, i, m) < 0);
        }
    } else {
        assert forall|i: int| 0 <= i < m implies #[trigger] zh[i] by {
            assert(zh[i] <==> offset_in(a2, i, m) < m);
        }
    }
}

/// An ascending half followed by a descending half is one circular block.
pub proof fn lemma_seam_forward(z: Seq<bool>, m: int)
    requires
        m >= 1,
        z.len() == 2 * m,
        sorted01(z.subrange(0, m)),
        rev_sorted01(z.subrange(m, 2 * m)),
    ensures
        bitonic01(z),
{
    let c1 = lemma_sorted01_shape(z.subrange(0, m));
    let c2 = lemma_rev_sorted01_shape(z.subrange(m, 2 * m));
    let a = c1;
    let l = m - c1 + c2;
    assert forall|k: int| 0 <= k < z.len() implies (#[trigger] z[k] <==> offset_in(a, k, 2 * m)
        < l) by {
        if k < m {
            assert(z.subrange(0, m)[k] == z[k]);
        } else {
            assert(z.subrange(m, 2 * m)[k - m] == z[k]);
        }
    }
    assert(block01(z, a, l));
}

/// Two sorted halves whose shadows cannot straddle the seam — the lower half
/// all `false`, or the upper half all `true` (flipped when descending) —
/// concatenate into one sorted shadow.
pub proof fn lemma_merge01(z: Seq<bool>, m: int, forward: bool)
    requires
        0 <= m <= z.len(),
        oriented01(z.subrange(0, m), forward),
        oriented01(z.subrange(m, z.len() as int), forward),
        forward ==> ((forall|i: int| 0 <= i < m ==> !(#[trigger] z[i])) || (forall|j: int|
            m <= j < z.len() ==> #[trigger] z[j])),
        !forward ==> ((forall|i: int| 0 <= i < m ==> #[trigger] z[i]) || (forall|j: int|
            m <= j < z.len() ==> !(#[trigger] z[j]))),
    ensures
        oriented01(z, forward),
{
    let lo = z.subrange(0, m);
    let hi = z.subrange(m, z.len() as int);
    if forward {
        assert forall|i: int, j: int| 0 <= i < j < z.len() && #[trigger] z[i] implies #[trigger] z[j] by {
            if j < m {
                assert(lo[i] == z[i] && lo[j] == z[j]);
                assert(lo[j]);
            } else if i >= m {
                assert(hi[i - m] == z[i] && hi[j - m] == z[j]);
                assert(hi[j - m]);
            }
        }
    } else {
        assert forall|i: int, j: int| 0 <= i < j < z.len() && #[trigger] z[j] implies #[trigger] z[i] by {
            if j < m {
                assert(lo[i] == z[i] && lo[j] == z[j]);
                assert(lo[i]);
            } else if i >= m {
                assert(hi[i - m] == z[i] && hi[j - m] == z[j]);
                assert(hi[i - m]);
            }
        }
    }
}

/// Sequences with the same multiset of elements have shadows with the same
/// multiset of booleans.
pub proof fn lemma_image_multiset<T>(x: Seq<T>, y: Seq<T>, h: spec_fn(T) -> bool)
    requires
        x.to_multiset() == y.to_multiset(),
    ensures
        image(x, h).to_multiset() == image(y, h).to_multiset(),
    decreases x.len(),
{
    broadcast use vstd::seq_lib::group_to_multiset_ensures;
    broadcast use vstd::multiset::group_multiset_axioms;
    broadcast use vstd::multiset::group_multiset_properties;

    if x.len() == 0 {
        assert(x.to_multiset().len() == x.len());
        assert(y.to_multiset().len() == y.len());
        assert(y.len() == 0);
        assert(image(x, h) =~= image(y, h));
    } else {
        let e = x.last();
        let x2 = x.drop_last();
        assert(x =~= x2.push(e));
        assert(x.to_multiset().count(e) > 0) by {
            assert(x.contains(e));
        }
        assert(y.to_multiset().count(e) > 0);
        assert(y.contains(e));
        let j = choose|j: int| 0 <= j < y.len() && y[j] == e;
        let y2 = y.remove(j);
        assert(y2.to_multiset() == y.to_multiset().remove(e));
        assert(x2.to_multiset() == x.to_multiset().remove(e)) by {
            assert(x2.push(e).to_multiset() == x2.to_multiset().insert(e));
        }
        lemma_image_multiset(x2, y2, h);
        assert(image(x, h) =~= image(x2, h).push(h(e)));
        assert(image(x, h).to_multiset() == image(x2, h).to_multiset().insert(h(e)));
        assert(image(y2, h) =~= image(y, h).remove(j));
        assert(image(y, h).remove(j).to_multiset() == image(y, h).to_multiset().remove(h(e)));
        assert(image(y, h).to_multiset().count(h(e)) > 0) by {
            assert(image(y, h)[j] == h(e));
            assert(image(y, h).contains(h(e)));
        }
        assert(image(y, h).to_multiset() == image(y, h).to_multiset().remove(h(e)).insert(h(e)));
    }
}

/// A boolean sequence holds no `true` exactly when its multiset counts none.
pub proof fn lemma_count_true_zero(z: Seq<bool>)
    ensures
        z.to_multiset().count(true) == 0 <==> (forall|k: int| 0 <= k < z.len() ==> !(#[trigger] z[k])),
{
    broadcast use vstd::seq_lib::group_to_multiset_ensures;

    if z.to_multiset().count(true) > 0 {
        assert(z.contains(true));
    }
    if exists|k: int| 0 <= k < z.len() && z[k] {
        let k = choose|k: int| 0 <= k < z.len() && z[k];
        assert(z.contains(true));
        assert(z.to_multiset().count(true) > 0);
    }
}

/// A boolean sequence holds no `false` exactly when its multiset counts none.
pub proof fn lemma_count_false_zero(z: Seq<bool>)
    ensures
        z.to_multiset().count(false) == 0 <==> (forall|k: int| 0 <= k < z.len() ==> #[trigger] z[k]),
{
    broadcast use vstd::seq_lib::group_to_multiset_ensures;

    if z.to_multiset().count(false) > 0 {
        assert(z.contains(false));
    }
    if exists|k: int| 0 <= k < z.len() && !z[k] {
        let k = choose|k: int| 0 <= k < z.len() && !z[k];
        assert(z.contains(false));
        assert(z.to_multiset().count(false) > 0);
    }
}

} // verus!
