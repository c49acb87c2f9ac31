use vstd::prelude::*;

use crate::cord::{
    CordTree, PendantCord, PendantView, SUM_CORD_COLOR, DIFFERENCE_CORD_COLOR, canonical_tree,
    cord_views, difference_tree, lemma_encoding_canonical, max_len, sum_tree, tree_total,
    value_at,
};
use crate::encoding::encode_number;

verus! {

/// Pendant-wise sums of two trees that all fit in 32 bits.
pub open spec fn sums_fit(a: Seq<PendantView>, b: Seq<PendantView>) -> bool {
    forall|i: int| 0 <= i < max_len(a, b) ==> #[trigger] value_at(a, i) + value_at(b, i) <= u32::MAX
}

/// Every pendant of `a` holds at least the value of the same pendant of `b`.
pub open spec fn dominates(a: Seq<PendantView>, b: Seq<PendantView>) -> bool {
    forall|i: int| 0 <= i < max_len(a, b) ==> #[trigger] value_at(a, i) >= value_at(b, i)
}

proof fn lemma_sum_tree_canonical(a: Seq<PendantView>, b: Seq<PendantView>)
    requires
        sums_fit(a, b),
    ensures
        canonical_tree(sum_tree(a, b)),
{
    let s = sum_tree(a, b);
    assert forall|i: int| 0 <= i < s.len() implies crate::cord::canonical_knots(
        #[trigger] s[i].knots,
    ) by {
        assert(value_at(a, i) + value_at(b, i) <= u32::MAX);
        lemma_encoding_canonical(value_at(a, i) + value_at(b, i));
    }
}

proof fn lemma_difference_tree_canonical(a: Seq<PendantView>, b: Seq<PendantView>)
    requires
        dominates(a, b),
        canonical_tree(a),
    ensures
        canonical_tree(difference_tree(a, b)),
{
    let d = difference_tree(a, b);
    assert forall|i: int| 0 <= i < d.len() implies crate::cord::canonical_knots(
        #[trigger] d[i].knots,
    ) by {
        assert(value_at(a, i) >= value_at(b, i));
        if i < a.len() {
            assert(crate::cord::canonical_knots(a[i].knots));
        }
        lemma_encoding_canonical((value_at(a, i) - value_at(b, i)) as nat);
    }
}

/// Add two quipu trees element-wise (pendant by pendant).
///
/// If the trees have different numbers of pendants, the shorter is
/// zero-padded. The result has one green pendant per position whose value
/// is the sum.
pub fn quipu_add(a: &CordTree, b: &CordTree) -> (sum: CordTree)
    requires
        sums_fit(a@, b@),
    ensures
        sum@ == sum_tree(a@, b@),
{
    let a_len = a.pendant_count();
    let b_len = b.pendant_count();
    let max_len = if a_len >= b_len {
        a_len
    } else {
        b_len
    };
    let ghost target = sum_tree(a@, b@);
    let mut cords: Vec<PendantCord> = Vec::new();
    for i in 0..max_len
        invariant
            max_len == target.len(),
            target == sum_tree(a@, b@),
            sums_fit(a@, b@),
            cords@.len() == i,
            cord_views(cords@) == target.take(i as int),
    {
        let va = a.decode_pendant(i);
        let vb = b.decode_pendant(i);
        assert(value_at(a@, i as int) + value_at(b@, i as int) <= u32::MAX);
        let mut cord = PendantCord::new(SUM_CORD_COLOR);
        cord.knots = encode_number(va + vb);
        let ghost before = cords@;
        cords.push(cord);
        proof {
            assert(cord@ == target[i as int]);
            assert forall|j: int| 0 <= j < i + 1 implies #[trigger] cord_views(cords@)[j]
                == target.take(i + 1)[j] by {
                if j < i {
                    assert(cord_views(before)[j] == target.take(i as int)[j]);
                }
            }
            assert(cord_views(cords@) =~= target.take(i + 1));
        }
    }
    proof {
        assert(target.take(max_len as int) =~= target);
        lemma_sum_tree_canonical(a@, b@);
    }
    CordTree::from_cords(cords)
}

/// Subtract tree b from tree a element-wise, the shorter zero-padded; the
/// result has one blue pendant per position.
///
/// Every pendant of `a` must hold at least the value of the same pendant
/// of `b`: a negative result has no quipu.
pub fn quipu_subtract(a: &CordTree, b: &CordTree) -> (difference: CordTree)
    requires
        dominates(a@, b@),
    ensures
        difference@ == difference_tree(a@, b@),
{
    proof {
        use_type_invariant(a);
    }
    let a_len = a.pendant_count();
    let b_len = b.pendant_count();
    let max_len = if a_len >= b_len {
        a_len
    } else {
        b_len
    };
    let ghost target = difference_tree(a@, b@);
    let mut cords: Vec<PendantCord> = Vec::new();
    for i in 0..max_len
        invariant
            max_len == target.len(),
            target == difference_tree(a@, b@),
            dominates(a@, b@),
            cords@.len() == i,
            cord_views(cords@) == target.take(i as int),
    {
        let va = a.decode_pendant(i);
        let vb = b.decode_pendant(i);
        assert(value_at(a@, i as int) >= value_at(b@, i as int));
        let mut cord = PendantCord::new(DIFFERENCE_CORD_COLOR);
        cord.knots = encode_number(va - vb);
        let ghost before = cords@;
        cords.push(cord);
        proof {
            assert(cord@ == target[i as int]);
            assert forall|j: int| 0 <= j < i + 1 implies #[trigger] cord_views(cords@)[j]
                == target.take(i + 1)[j] by {
                if j < i {
                    assert(cord_views(before)[j] == target.take(i as int)[j]);
                }
            }
            assert(cord_views(cords@) =~= target.take(i + 1));
        }
    }
    proof {
        assert(target.take(max_len as int) =~= target);
        lemma_difference_tree_canonical(a@, b@);
    }
    CordTree::from_cords(cords)
}

// ── Laws ────────────────────────────────────────────────────────────────

/// The sum of two trees has as many pendants as the longer one, and each
/// pendant holds the sum of the values at its position.
pub proof fn lemma_sum_values(a: Seq<PendantView>, b: Seq<PendantView>)
    requires
        sums_fit(a, b),
    ensures
        sum_tree(a, b).len() == max_len(a, b),
        forall|i: int| #[trigger] value_at(sum_tree(a, b), i) == value_at(a, i) + value_at(b, i),
{
    assert forall|i: int| #[trigger] value_at(sum_tree(a, b), i) == value_at(a, i) + value_at(
        b,
        i,
    ) by {
        if 0 <= i < max_len(a, b) {
            lemma_encoding_canonical(value_at(a, i) + value_at(b, i));
        }
    }
}

/// The difference of two trees has as many pendants as the longer one,
/// and each pendant holds the difference of the values at its position.
pub proof fn lemma_difference_values(a: Seq<PendantView>, b: Seq<PendantView>)
    requires
        canonical_tree(a),
        dominates(a, b),
    ensures
        difference_tree(a, b).len() == max_len(a, b),
        forall|i: int| #[trigger] value_at(difference_tree(a, b), i) == value_at(a, i) - value_at(
            b,
            i,
        ),
{
    assert forall|i: int| #[trigger] value_at(difference_tree(a, b), i) == value_at(a, i)
        - value_at(b, i) by {
        if 0 <= i < max_len(a, b) {
            assert(value_at(a, i) >= value_at(b, i));
            if i < a.len() {
                assert(crate::cord::canonical_knots(a[i].knots));
            }
            lemma_encoding_canonical((value_at(a, i) - value_at(b, i)) as nat);
        }
    }
}

/// Adding two trees gives the same tree in either order.
pub proof fn lemma_add_commutative(a: Seq<PendantView>, b: Seq<PendantView>)
    ensures
        sum_tree(a, b) == sum_tree(b, a),
{
    assert(sum_tree(a, b) =~= sum_tree(b, a));
}

/// Subtracting `b` from the sum of `a` and `b` gives back the values of
/// `a`, padded with zeros to the length of the longer tree.
pub proof fn lemma_subtract_undoes_add(a: Seq<PendantView>, b: Seq<PendantView>)
    requires
        sums_fit(a, b),
    ensures
        dominates(sum_tree(a, b), b),
        difference_tree(sum_tree(a, b), b).len() == max_len(a, b),
        forall|i: int| #[trigger] value_at(difference_tree(sum_tree(a, b), b), i) == value_at(a, i),
{
    let s = sum_tree(a, b);
    lemma_sum_values(a, b);
    lemma_sum_tree_canonical(a, b);
    assert(max_len(s, b) == max_len(a, b));
    assert forall|i: int| 0 <= i < max_len(s, b) implies #[trigger] value_at(s, i) >= value_at(
        b,
        i,
    ) by {
        assert(value_at(s, i) == value_at(a, i) + value_at(b, i));
    }
    lemma_difference_values(s, b);
    assert forall|i: int| #[trigger] value_at(difference_tree(s, b), i) == value_at(a, i) by {
        assert(value_at(s, i) == value_at(a, i) + value_at(b, i));
    }
}

/// The total of the values at positions below `n`, zero beyond the tree.
spec fn padded_total(t: Seq<PendantView>, n: nat) -> nat
    decreases n,
{
    if n == 0 {
        0
    } else {
        padded_total(t, (n - 1) as nat) + value_at(t, n - 1)
    }
}

proof fn lemma_padded_total(t: Seq<PendantView>, n: nat)
    requires
        t.len() <= n,
    ensures
        padded_total(t, n) == tree_total(t),
    decreases n,
{
    if n > t.len() {
        lemma_padded_total(t, (n - 1) as nat);
    } else if n > 0 {
        lemma_padded_total(t.drop_last(), (n - 1) as nat);
        lemma_padded_prefix(t, (n - 1) as nat);
    }
}

proof fn lemma_padded_prefix(t: Seq<PendantView>, n: nat)
    requires
        n < t.len(),
    ensures
        padded_total(t.drop_last(), n) == padded_total(t, n),
    decreases n,
{
    if n > 0 {
        lemma_padded_prefix(t, (n - 1) as nat);
    }
}

proof fn lemma_padded_sum(a: Seq<PendantView>, b: Seq<PendantView>, n: nat)
    requires
        sums_fit(a, b),
        n <= max_len(a, b),
    ensures
        padded_total(sum_tree(a, b), n) == padded_total(a, n) + padded_total(b, n),
    decreases n,
{
    if n > 0 {
        lemma_padded_sum(a, b, (n - 1) as nat);
        lemma_sum_values(a, b);
        assert(value_at(sum_tree(a, b), n - 1) == value_at(a, n - 1) + value_at(b, n - 1));
    }
}

/// The total of the sum of two trees is the sum of their totals.
pub proof fn lemma_sum_total(a: Seq<PendantView>, b: Seq<PendantView>)
    requires
        sums_fit(a, b),
    ensures
        tree_total(sum_tree(a, b)) == tree_total(a) + tree_total(b),
{
    let n = max_len(a, b);
    lemma_padded_sum(a, b, n);
    lemma_padded_total(a, n);
    lemma_padded_total(b, n);
    lemma_padded_total(sum_tree(a, b), n);
}

} // verus!
