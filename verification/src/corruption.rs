use vstd::prelude::*;

use crate::cord::{
    CordTree, PendantView, canonical_knots, canonical_tree, lemma_canonical_decodable, min_len,
    parity, value_at,
};
use crate::encoding::{checksum, digit_sum, knots_value};

verus! {

/// Report from comparing two cord trees for corruption.
#[derive(Debug, Clone, Copy, PartialEq)]
pub struct CorruptionReport {
    /// True if all pendant values match.
    pub value_ok: bool,
    /// True if pendant counts match.
    pub count_ok: bool,
    /// True if all parity checks match.
    pub parity_ok: bool,
}

impl CorruptionReport {
    pub fn new(value_ok: bool, count_ok: bool, parity_ok: bool) -> (report: CorruptionReport)
        ensures
            report == (CorruptionReport { value_ok, count_ok, parity_ok }),
    {
        CorruptionReport { value_ok, count_ok, parity_ok }
    }
}

/// The pendants that both trees have carry the same values.
pub open spec fn values_match(original: Seq<PendantView>, copy: Seq<PendantView>) -> bool {
    forall|i: int|
        0 <= i < min_len(original, copy) ==> #[trigger] value_at(original, i) == value_at(copy, i)
}

/// The pendants that both trees have carry knots of the same parity.
pub open spec fn parities_match(original: Seq<PendantView>, copy: Seq<PendantView>) -> bool {
    forall|i: int|
        0 <= i < min_len(original, copy) ==> #[trigger] parity(original[i].knots) == parity(
            copy[i].knots,
        )
}

/// What comparing `copy` against `original` reports: the counts match;
/// the values match, which needs the counts to match as well; the
/// parities of the pendants both trees have match.
pub open spec fn corruption_report(original: Seq<PendantView>, copy: Seq<PendantView>) -> CorruptionReport {
    CorruptionReport {
        value_ok: original.len() == copy.len() && values_match(original, copy),
        count_ok: original.len() == copy.len(),
        parity_ok: parities_match(original, copy),
    }
}

/// Compare two cord trees and detect corruption.
///
/// Checks:
/// - Pendant count matches
/// - Value matches at each position
/// - Parity (checksum mod 10) matches at each position
pub fn detect_corruption(original: &CordTree, copy: &CordTree) -> (report: CorruptionReport)
    ensures
        report == corruption_report(original@, copy@),
{
    proof {
        use_type_invariant(original);
        use_type_invariant(copy);
    }
    let original_len = original.pendant_count();
    let copy_len = copy.pendant_count();
    let count_ok = original_len == copy_len;

    let shared_len = if original_len <= copy_len {
        original_len
    } else {
        copy_len
    };
    let mut value_ok = true;
    let mut parity_ok = true;

    for i in 0..shared_len
        invariant
            shared_len == min_len(original@, copy@),
            canonical_tree(original@),
            canonical_tree(copy@),
            value_ok == (forall|j: int|
                0 <= j < i ==> #[trigger] value_at(original@, j) == value_at(copy@, j)),
            parity_ok == (forall|j: int|
                0 <= j < i ==> #[trigger] parity(original@[j].knots) == parity(copy@[j].knots)),
    {
        let original_cord = original.pendant(i);
        let copy_cord = copy.pendant(i);
        proof {
            assert(canonical_knots(original@[i as int].knots));
            assert(canonical_knots(copy@[i as int].knots));
            lemma_canonical_decodable(original@[i as int].knots);
            lemma_canonical_decodable(copy@[i as int].knots);
        }
        let original_value = original_cord.value();
        let copy_value = copy_cord.value();
        assert(original_value == value_at(original@, i as int));
        assert(copy_value == value_at(copy@, i as int));
        if original_value != copy_value {
            value_ok = false;
        }
        let original_parity = checksum(original_cord.knots());
        let copy_parity = checksum(copy_cord.knots());
        assert(original_parity == parity(original@[i as int].knots));
        assert(copy_parity == parity(copy@[i as int].knots));
        if original_parity != copy_parity {
            parity_ok = false;
        }
    }

    // If counts differ, values can't all be ok
    if original_len != copy_len {
        value_ok = false;
    }

    CorruptionReport { value_ok, count_ok, parity_ok }
}

/// What a report says, in terms of the two trees: the counts are equal
/// exactly when the trees have as many pendants; the values are all fine
/// exactly when the counts are equal and every pendant records the same
/// value as its counterpart; the parities are all fine exactly when every
/// pendant the two trees share has digits with the same sum mod 10.
/// Comparing the copy against the original gives the same report.
pub proof fn lemma_report_meaning(original: Seq<PendantView>, copy: Seq<PendantView>)
    ensures
        corruption_report(original, copy).count_ok <==> original.len() == copy.len(),
        corruption_report(original, copy).value_ok <==> original.len() == copy.len() && forall|
            i: int,
        |
            0 <= i < original.len() ==> #[trigger] knots_value(original[i].knots) == knots_value(
                copy[i].knots,
            ),
        corruption_report(original, copy).parity_ok <==> forall|i: int|
            0 <= i < original.len() && i < copy.len() ==> #[trigger] digit_sum(original[i].knots)
                % 10 == digit_sum(copy[i].knots) % 10,
        corruption_report(original, copy) == corruption_report(copy, original),
{
    let r = corruption_report(original, copy);
    if original.len() == copy.len() && forall|i: int|
        0 <= i < original.len() ==> #[trigger] knots_value(original[i].knots) == knots_value(
            copy[i].knots,
        ) {
        assert forall|i: int| 0 <= i < min_len(original, copy) implies #[trigger] value_at(
            original,
            i,
        ) == value_at(copy, i) by {
            assert(knots_value(original[i].knots) == knots_value(copy[i].knots));
        }
    }
    if r.value_ok {
        assert forall|i: int| 0 <= i < original.len() implies #[trigger] knots_value(
            original[i].knots,
        ) == knots_value(copy[i].knots) by {
            assert(value_at(original, i) == value_at(copy, i));
        }
    }
    if forall|i: int|
        0 <= i < original.len() && i < copy.len() ==> #[trigger] digit_sum(original[i].knots) % 10
            == digit_sum(copy[i].knots) % 10 {
        assert forall|i: int| 0 <= i < min_len(original, copy) implies #[trigger] parity(
            original[i].knots,
        ) == parity(copy[i].knots) by {
            assert(digit_sum(original[i].knots) % 10 == digit_sum(copy[i].knots) % 10);
        }
    }
    if r.parity_ok {
        assert forall|i: int| 0 <= i < original.len() && i < copy.len() implies #[trigger] digit_sum(
            original[i].knots,
        ) % 10 == digit_sum(copy[i].knots) % 10 by {
            assert(parity(original[i].knots) == parity(copy[i].knots));
        }
    }
    let s = corruption_report(copy, original);
    assert(r.value_ok == s.value_ok) by {
        if r.value_ok {
            assert forall|i: int| 0 <= i < min_len(copy, original) implies #[trigger] value_at(
                copy,
                i,
            ) == value_at(original, i) by {
                assert(value_at(original, i) == value_at(copy, i));
            }
        }
        if s.value_ok {
            assert forall|i: int| 0 <= i < min_len(original, copy) implies #[trigger] value_at(
                original,
                i,
            ) == value_at(copy, i) by {
                assert(value_at(copy, i) == value_at(original, i));
            }
        }
    }
    assert(r.parity_ok == s.parity_ok) by {
        if r.parity_ok {
            assert forall|i: int| 0 <= i < min_len(copy, original) implies #[trigger] parity(
                copy[i].knots,
            ) == parity(original[i].knots) by {
                assert(parity(original[i].knots) == parity(copy[i].knots));
            }
        }
        if s.parity_ok {
            assert forall|i: int| 0 <= i < min_len(original, copy) implies #[trigger] parity(
                original[i].knots,
            ) == parity(copy[i].knots) by {
                assert(parity(copy[i].knots) == parity(original[i].knots));
            }
        }
    }
}

/// A tree compared against itself reports no corruption of any kind.
pub proof fn lemma_no_corruption_against_itself(tree: Seq<PendantView>)
    ensures
        corruption_report(tree, tree) == (CorruptionReport {
            value_ok: true,
            count_ok: true,
            parity_ok: true,
        }),
{
}

/// For trees whose knots `encode_number` made, matching values mean
/// matching counts and matching parities: a count or parity corruption is
/// always a value corruption too.
pub proof fn lemma_value_ok_implies_count_and_parity_ok(
    original: Seq<PendantView>,
    copy: Seq<PendantView>,
)
    requires
        canonical_tree(original),
        canonical_tree(copy),
    ensures
        corruption_report(original, copy).value_ok ==> corruption_report(original, copy).count_ok,
        corruption_report(original, copy).value_ok ==> corruption_report(original, copy).parity_ok,
{
    if corruption_report(original, copy).value_ok {
        assert forall|i: int| 0 <= i < min_len(original, copy) implies #[trigger] parity(
            original[i].knots,
        ) == parity(copy[i].knots) by {
            assert(value_at(original, i) == value_at(copy, i));
            assert(canonical_knots(original[i].knots));
            assert(canonical_knots(copy[i].knots));
        }
    }
}

} // verus!
