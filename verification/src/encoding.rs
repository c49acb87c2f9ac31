use vstd::prelude::*;

use crate::knot::{Knot, KnotType, pow10};

verus! {

// ── What a knot sequence stands for ─────────────────────────────────────

/// The number a knot sequence records: the sum, over its knots, of the
/// knot's digit times ten to the knot's position.
pub open spec fn knots_value(s: Seq<Knot>) -> nat
    decreases s.len(),
{
    if s.len() == 0 {
        0
    } else {
        knots_value(s.drop_last()) + s.last().digit() * pow10(s.last().position as nat)
    }
}

/// The sum of the digits that the knots of a sequence stand for.
pub open spec fn digit_sum(s: Seq<Knot>) -> nat
    decreases s.len(),
{
    if s.len() == 0 {
        0
    } else {
        digit_sum(s.drop_last()) + s.last().digit()
    }
}

/// A knot sequence that can be read back into a `u32`: every position is
/// below ten and the value it records fits in 32 bits.
pub open spec fn decodable(s: Seq<Knot>) -> bool {
    &&& forall|i: int| 0 <= i < s.len() ==> #[trigger] s[i].position < 10
    &&& knots_value(s) <= u32::MAX
}

// ── The encoding of a number ────────────────────────────────────────────

/// The decimal digits of `n`, least significant first; zero has none.
pub open spec fn decimal_digits(n: nat) -> Seq<u8>
    decreases n,
{
    if n == 0 {
        Seq::empty()
    } else {
        seq![(n % 10) as u8] + decimal_digits(n / 10)
    }
}

/// The sum of the decimal digits of `n`.
pub open spec fn decimal_digit_sum(n: nat) -> nat
    decreases n,
{
    if n == 0 {
        0
    } else {
        n % 10 + decimal_digit_sum(n / 10)
    }
}

/// The knot that records the non-zero digit `d` at position `pos`: a
/// figure-eight knot for a one in the units, a single knot for a one
/// elsewhere, a long knot of `d` turns otherwise.
pub open spec fn knot_for_digit(d: u8, pos: nat) -> Knot {
    if d == 1 {
        if pos == 0 {
            Knot { knot_type: KnotType::FigureEight, value: 1, position: 0 }
        } else {
            Knot { knot_type: KnotType::Single, value: 1, position: pos as u32 }
        }
    } else {
        Knot { knot_type: KnotType::Long, value: d, position: pos as u32 }
    }
}

/// The knots for a digit sequence whose first digit stands at position
/// `pos`: one knot per non-zero digit, in the order of the digits.
pub open spec fn digits_knots(ds: Seq<u8>, pos: nat) -> Seq<Knot>
    decreases ds.len(),
{
    if ds.len() == 0 {
        Seq::empty()
    } else {
        let rest = digits_knots(ds.drop_first(), pos + 1);
        if ds[0] == 0 {
            rest
        } else {
            seq![knot_for_digit(ds[0], pos)] + rest
        }
    }
}

/// The knots that record `n`.
pub open spec fn encoding(n: nat) -> Seq<Knot> {
    digits_knots(decimal_digits(n), 0)
}

/// The number a digit sequence stands for, least significant digit first.
pub open spec fn digits_value(ds: Seq<u8>) -> nat
    decreases ds.len(),
{
    if ds.len() == 0 {
        0
    } else {
        ds[0] as nat + 10 * digits_value(ds.drop_first())
    }
}

/// The sum of a digit sequence.
pub open spec fn digits_sum(ds: Seq<u8>) -> nat
    decreases ds.len(),
{
    if ds.len() == 0 {
        0
    } else {
        ds[0] as nat + digits_sum(ds.drop_first())
    }
}

pub open spec fn all_digits(ds: Seq<u8>) -> bool {
    forall|i: int| 0 <= i < ds.len() ==> #[trigger] ds[i] < 10
}

// ── Lemmas ──────────────────────────────────────────────────────────────

proof fn lemma_pow10_monotone(a: nat, b: nat)
    requires
        a <= b,
    ensures
        1 <= pow10(a) <= pow10(b),
    decreases b,
{
    if b > 0 {
        if a == b {
            lemma_pow10_monotone((b - 1) as nat, (b - 1) as nat);
        } else {
            lemma_pow10_monotone(a, (b - 1) as nat);
        }
    }
}

proof fn lemma_pow10_small()
    ensures
        pow10(9) == 1_000_000_000,
        pow10(10) == 10_000_000_000,
{
    reveal_with_fuel(pow10, 11);
}

proof fn lemma_knots_value_append(a: Seq<Knot>, b: Seq<Knot>)
    ensures
        knots_value(a + b) == knots_value(a) + knots_value(b),
        digit_sum(a + b) == digit_sum(a) + digit_sum(b),
    decreases b.len(),
{
    if b.len() == 0 {
        assert(a + b =~= a);
    } else {
        assert((a + b).drop_last() =~= a + b.drop_last());
        lemma_knots_value_append(a, b.drop_last());
    }
}

proof fn lemma_prefix_bounded(s: Seq<Knot>, i: int)
    requires
        0 <= i <= s.len(),
    ensures
        knots_value(s.take(i)) <= knots_value(s),
        digit_sum(s.take(i)) <= digit_sum(s),
{
    assert(s =~= s.take(i) + s.skip(i));
    lemma_knots_value_append(s.take(i), s.skip(i));
}

/// The digits of a knot sequence sum to no more than the value it records.
pub proof fn lemma_digit_sum_le_value(s: Seq<Knot>)
    ensures
        digit_sum(s) <= knots_value(s),
    decreases s.len(),
{
    if s.len() > 0 {
        lemma_digit_sum_le_value(s.drop_last());
        let d = s.last().digit();
        let p = pow10(s.last().position as nat);
        lemma_pow10_monotone(0, s.last().position as nat);
        assert(d <= d * p) by (nonlinear_arith)
            requires
                p >= 1,
        ;
    }
}

proof fn lemma_single_knot(k: Knot)
    ensures
        knots_value(seq![k]) == k.digit() * pow10(k.position as nat),
        digit_sum(seq![k]) == k.digit(),
{
    let s = seq![k];
    assert(s.drop_last() =~= Seq::<Knot>::empty());
    assert(s.last() == k);
    assert(knots_value(Seq::<Knot>::empty()) == 0);
    assert(digit_sum(Seq::<Knot>::empty()) == 0);
}

proof fn lemma_decimal_digits(n: nat)
    ensures
        all_digits(decimal_digits(n)),
        digits_value(decimal_digits(n)) == n,
        digits_sum(decimal_digits(n)) == decimal_digit_sum(n),
    decreases n,
{
    if n > 0 {
        lemma_decimal_digits(n / 10);
        let ds = decimal_digits(n);
        assert(ds.drop_first() =~= decimal_digits(n / 10));
    }
}

proof fn lemma_decimal_digits_len(n: nat, k: nat)
    requires
        n < pow10(k),
    ensures
        decimal_digits(n).len() <= k,
    decreases n,
{
    if n > 0 {
        assert(k > 0);
        assert(n / 10 < pow10((k - 1) as nat));
        lemma_decimal_digits_len(n / 10, (k - 1) as nat);
    }
}

proof fn lemma_digits_knots(ds: Seq<u8>, pos: nat)
    requires
        all_digits(ds),
        pos + ds.len() <= 0x1_0000_0000,
    ensures
        knots_value(digits_knots(ds, pos)) == digits_value(ds) * pow10(pos),
        digit_sum(digits_knots(ds, pos)) == digits_sum(ds),
        forall|i: int|
            0 <= i < digits_knots(ds, pos).len() ==> pos <= #[trigger] digits_knots(
                ds,
                pos,
            )[i].position < pos + ds.len(),
    decreases ds.len(),
{
    if ds.len() == 0 {
        assert(digits_value(ds) == 0);
        assert(0 * pow10(pos) == 0) by (nonlinear_arith);
    } else {
        let t = ds.drop_first();
        assert(all_digits(t)) by {
            assert forall|i: int| 0 <= i < t.len() implies #[trigger] t[i] < 10 by {
                assert(t[i] == ds[i + 1]);
            }
        }
        lemma_digits_knots(t, pos + 1);
        let rest = digits_knots(t, pos + 1);
        let p = pow10(pos);
        let vt = digits_value(t);
        assert(pow10(pos + 1) == 10 * p);
        assert(ds[0] < 10);
        if ds[0] == 0 {
            assert(digits_knots(ds, pos) == rest);
            assert(digits_value(ds) == 10 * vt);
            assert(vt * (10 * p) == (10 * vt) * p) by (nonlinear_arith);
        } else {
            let k = knot_for_digit(ds[0], pos);
            assert(k.digit() == ds[0]);
            assert(k.position as nat == pos);
            lemma_single_knot(k);
            lemma_knots_value_append(seq![k], rest);
            let d = ds[0] as nat;
            assert(digits_value(ds) == d + 10 * vt);
            assert(d * p + vt * (10 * p) == (d + 10 * vt) * p) by (nonlinear_arith);
            let all = seq![k] + rest;
            assert(digits_knots(ds, pos) == all);
            assert forall|i: int| 0 <= i < all.len() implies pos <= #[trigger] all[i].position < pos
                + ds.len() by {
                if i > 0 {
                    assert(all[i] == rest[i - 1]);
                }
            }
        }
    }
}

/// A knot tied as the encoding ties one: a figure-eight knot for a one in
/// the units, a single knot for a one elsewhere, a long knot of two to
/// nine turns for the other digits.
pub open spec fn well_tied(k: Knot) -> bool {
    match k.knot_type {
        KnotType::FigureEight => k.value == 1 && k.position == 0,
        KnotType::Single => k.value == 1 && k.position > 0,
        KnotType::Long => 2 <= k.value <= 9,
    }
}

proof fn lemma_digits_knots_shape(ds: Seq<u8>, pos: nat)
    requires
        all_digits(ds),
        pos + ds.len() <= 0x1_0000_0000,
    ensures
        forall|i: int|
            0 <= i < digits_knots(ds, pos).len() ==> well_tied(#[trigger] digits_knots(ds, pos)[i]),
        forall|i: int, j: int|
            0 <= i < j < digits_knots(ds, pos).len() ==> #[trigger] digits_knots(ds, pos)[i].position
                < #[trigger] digits_knots(ds, pos)[j].position,
    decreases ds.len(),
{
    if ds.len() > 0 {
        let t = ds.drop_first();
        assert(all_digits(t)) by {
            assert forall|i: int| 0 <= i < t.len() implies #[trigger] t[i] < 10 by {
                assert(t[i] == ds[i + 1]);
            }
        }
        lemma_digits_knots_shape(t, pos + 1);
        lemma_digits_knots(t, pos + 1);
        if ds[0] != 0 {
            let rest = digits_knots(t, pos + 1);
            let k = knot_for_digit(ds[0], pos);
            let all = seq![k] + rest;
            assert(digits_knots(ds, pos) == all);
            assert(ds[0] < 10);
            assert(well_tied(k));
            assert forall|i: int| 0 <= i < all.len() implies well_tied(#[trigger] all[i]) by {
                if i > 0 {
                    assert(all[i] == rest[i - 1]);
                }
            }
            assert forall|i: int, j: int| 0 <= i < j < all.len() implies #[trigger] all[i].position
                < #[trigger] all[j].position by {
                assert(all[j] == rest[j - 1]);
                if i > 0 {
                    assert(all[i] == rest[i - 1]);
                }
            }
        }
    }
}

/// Every knot of an encoding is tied as the encoding rules say, and the
/// knots come in strictly increasing order of position.
pub proof fn lemma_encoding_shape(n: nat)
    requires
        n <= u32::MAX,
    ensures
        forall|i: int| 0 <= i < encoding(n).len() ==> well_tied(#[trigger] encoding(n)[i]),
        forall|i: int, j: int|
            0 <= i < j < encoding(n).len() ==> #[trigger] encoding(n)[i].position
                < #[trigger] encoding(n)[j].position,
{
    lemma_decimal_digits(n);
    lemma_pow10_small();
    lemma_decimal_digits_len(n, 10);
    lemma_digits_knots_shape(decimal_digits(n), 0);
}

/// The encoding of `n` records `n` and can be read back, its digits sum to
/// the decimal digit sum of `n`, and no knot lies beyond the last digit.
pub proof fn lemma_encoding_roundtrip(n: nat)
    requires
        n <= u32::MAX,
    ensures
        knots_value(encoding(n)) == n,
        digit_sum(encoding(n)) == decimal_digit_sum(n),
        decodable(encoding(n)),
{
    lemma_decimal_digits(n);
    lemma_pow10_small();
    lemma_decimal_digits_len(n, 10);
    lemma_digits_knots(decimal_digits(n), 0);
    assert(pow10(0) == 1);
    assert(n * 1 == n);
}

/// Knots tied by the encoding rules, in strictly increasing order of
/// position.
pub open spec fn tied_in_order(s: Seq<Knot>) -> bool {
    &&& forall|i: int| 0 <= i < s.len() ==> well_tied(#[trigger] s[i])
    &&& forall|i: int, j: int|
        0 <= i < j < s.len() ==> #[trigger] s[i].position < #[trigger] s[j].position
}

/// The value of a knot sequence counted from position `pos`: each knot's
/// digit times ten to its position above `pos`, summed from the first knot.
spec fn value_from(s: Seq<Knot>, pos: nat) -> nat
    decreases s.len(),
{
    if s.len() == 0 {
        0
    } else {
        s[0].digit() * pow10((s[0].position - pos) as nat) + value_from(s.drop_first(), pos)
    }
}

proof fn lemma_value_from_zero(s: Seq<Knot>)
    ensures
        value_from(s, 0) == knots_value(s),
    decreases s.len(),
{
    if s.len() > 0 {
        lemma_value_from_zero(s.drop_first());
        assert(s =~= seq![s[0]] + s.drop_first());
        lemma_single_knot(s[0]);
        lemma_knots_value_append(seq![s[0]], s.drop_first());
    }
}

proof fn lemma_value_from_shift(s: Seq<Knot>, pos: nat)
    requires
        forall|i: int| 0 <= i < s.len() ==> #[trigger] s[i].position > pos,
    ensures
        value_from(s, pos) == 10 * value_from(s, pos + 1),
    decreases s.len(),
{
    if s.len() > 0 {
        let t = s.drop_first();
        assert forall|i: int| 0 <= i < t.len() implies #[trigger] t[i].position > pos by {
            assert(t[i] == s[i + 1]);
        }
        lemma_value_from_shift(t, pos);
        let e = (s[0].position - pos) as nat;
        assert(e > 0);
        assert(pow10(e) == 10 * pow10((e - 1) as nat));
        assert((s[0].position - (pos + 1)) as nat == (e - 1) as nat);
        let d = s[0].digit();
        let q = pow10((e - 1) as nat);
        assert(d * (10 * q) == 10 * (d * q)) by (nonlinear_arith);
    }
}

proof fn lemma_tied_tail(s: Seq<Knot>)
    requires
        s.len() > 0,
        tied_in_order(s),
    ensures
        tied_in_order(s.drop_first()),
        forall|i: int|
            0 <= i < s.drop_first().len() ==> #[trigger] s.drop_first()[i].position
                > s[0].position,
{
    let t = s.drop_first();
    assert forall|i: int| 0 <= i < t.len() implies well_tied(#[trigger] t[i]) by {
        assert(t[i] == s[i + 1]);
    }
    assert forall|i: int, j: int| 0 <= i < j < t.len() implies #[trigger] t[i].position
        < #[trigger] t[j].position by {
        assert(t[i] == s[i + 1]);
        assert(t[j] == s[j + 1]);
    }
    assert forall|i: int| 0 <= i < t.len() implies #[trigger] t[i].position > s[0].position by {
        assert(t[i] == s[i + 1]);
        assert(s[0].position < s[i + 1].position);
    }
}

proof fn lemma_tied_digits_knots(s: Seq<Knot>, pos: nat)
    requires
        pos <= 10,
        tied_in_order(s),
        forall|i: int| 0 <= i < s.len() ==> pos <= #[trigger] s[i].position < 10,
    ensures
        digits_knots(decimal_digits(value_from(s, pos)), pos) == s,
    decreases 10 - pos,
{
    let n = value_from(s, pos);
    if s.len() == 0 {
        assert(decimal_digits(0) =~= Seq::<u8>::empty());
        assert(digits_knots(Seq::<u8>::empty(), pos) =~= s);
    } else {
        let k = s[0];
        assert(well_tied(k));
        assert(pos <= k.position < 10);
        let d = k.digit();
        assert(1 <= d <= 9);
        let ds = decimal_digits(n);
        lemma_tied_tail(s);
        let t = s.drop_first();
        if k.position == pos {
            assert forall|i: int| 0 <= i < t.len() implies pos + 1 <= #[trigger] t[i].position
                < 10 by {
                assert(t[i] == s[i + 1]);
            }
            lemma_value_from_shift(t, pos);
            assert(pow10(0) == 1);
            assert((k.position - pos) as nat == 0);
            assert(pow10((k.position - pos) as nat) == 1);
            assert(d * pow10((k.position - pos) as nat) == d * 1);
            assert(n == d * pow10((k.position - pos) as nat) + value_from(t, pos));
            assert(n == d + 10 * value_from(t, pos + 1));
            assert(n > 0);
            assert(n % 10 == d && n / 10 == value_from(t, pos + 1));
            lemma_tied_digits_knots(t, pos + 1);
            assert(ds.drop_first() =~= decimal_digits(n / 10));
            assert(ds[0] == d as u8);
            assert(knot_for_digit(ds[0], pos) == k);
            assert(digits_knots(ds, pos) =~= seq![k] + t);
            assert(s =~= seq![k] + t);
        } else {
            assert forall|i: int| 0 <= i < s.len() implies #[trigger] s[i].position > pos by {
                if i > 0 {
                    assert(s[0].position < s[i].position);
                }
            }
            assert forall|i: int| 0 <= i < s.len() implies pos + 1 <= #[trigger] s[i].position
                < 10 by {
                if i > 0 {
                    assert(s[0].position < s[i].position);
                }
            }
            lemma_value_from_shift(s, pos);
            let m = value_from(s, pos + 1);
            assert(m > 0) by {
                assert(m >= d * pow10((k.position - (pos + 1)) as nat));
                lemma_pow10_monotone(0, (k.position - (pos + 1)) as nat);
                assert(d * pow10((k.position - (pos + 1)) as nat) >= 1) by (nonlinear_arith)
                    requires
                        d >= 1,
                        pow10((k.position - (pos + 1)) as nat) >= 1,
                ;
            }
            assert(n > 0);
            assert(n % 10 == 0 && n / 10 == m);
            lemma_tied_digits_knots(s, pos + 1);
            assert(ds.drop_first() =~= decimal_digits(m));
            assert(ds[0] == 0);
        }
    }
}

/// Knots tied by the encoding rules, in strictly increasing order of
/// position, that record a 32-bit value are exactly the encoding of that
/// value: the encoding is the only such knot sequence for its value.
pub proof fn lemma_encoding_unique(s: Seq<Knot>)
    requires
        tied_in_order(s),
        knots_value(s) <= u32::MAX,
    ensures
        encoding(knots_value(s)) == s,
{
    assert forall|i: int| 0 <= i < s.len() implies #[trigger] s[i].position < 10 by {
        let k = s[i];
        assert(well_tied(k));
        assert(s.take(i + 1).drop_last() =~= s.take(i));
        assert(s.take(i + 1).last() == k);
        lemma_prefix_bounded(s, i + 1);
        if k.position >= 10 {
            lemma_pow10_monotone(10, k.position as nat);
            lemma_pow10_small();
            let p = pow10(k.position as nat);
            assert(k.digit() * p >= p) by (nonlinear_arith)
                requires
                    k.digit() >= 1,
            ;
        }
    }
    lemma_tied_digits_knots(s, 0);
    lemma_value_from_zero(s);
}

/// A knot sequence is the encoding of the 32-bit value it records exactly
/// when it is tied by the encoding rules, in increasing order of position.
pub proof fn lemma_encoding_characterized(s: Seq<Knot>)
    requires
        knots_value(s) <= u32::MAX,
    ensures
        encoding(knots_value(s)) == s <==> tied_in_order(s),
{
    if tied_in_order(s) {
        lemma_encoding_unique(s);
    }
    if encoding(knots_value(s)) == s {
        lemma_encoding_shape(knots_value(s));
    }
}

/// The decimal digit of `n` at position `p` (0 = units).
pub open spec fn digit_at(n: nat, p: nat) -> nat {
    (n / pow10(p)) % 10
}

proof fn lemma_decimal_digit_at(n: nat, j: nat)
    requires
        j < decimal_digits(n).len(),
    ensures
        decimal_digits(n)[j as int] as nat == digit_at(n, j),
    decreases n,
{
    let ds = decimal_digits(n);
    assert(n > 0);
    if j == 0 {
        assert(pow10(0) == 1);
        assert(n / 1 == n);
    } else {
        assert(ds.drop_first() =~= decimal_digits(n / 10));
        assert(ds[j as int] == decimal_digits(n / 10)[j - 1]);
        lemma_decimal_digit_at(n / 10, (j - 1) as nat);
        lemma_pow10_monotone(0, (j - 1) as nat);
        vstd::arithmetic::div_mod::lemma_div_denominator(n as int, 10, pow10((j - 1) as nat) as int);
        assert(pow10(j) == 10 * pow10((j - 1) as nat));
    }
}

proof fn lemma_decimal_digits_bound(n: nat)
    ensures
        n < pow10(decimal_digits(n).len()),
    decreases n,
{
    if n > 0 {
        lemma_decimal_digits_bound(n / 10);
        let ds = decimal_digits(n);
        assert(ds.drop_first() =~= decimal_digits(n / 10));
        assert(pow10(ds.len()) == 10 * pow10((ds.len() - 1) as nat));
    } else {
        assert(pow10(0) == 1);
    }
}

proof fn lemma_digit_at_beyond(n: nat, j: nat)
    requires
        j >= decimal_digits(n).len(),
    ensures
        digit_at(n, j) == 0,
{
    lemma_decimal_digits_bound(n);
    lemma_pow10_monotone(decimal_digits(n).len(), j);
    let p = pow10(j);
    assert(n / p == 0) by (nonlinear_arith)
        requires
            n < p,
    ;
}

proof fn lemma_knot_for_digit(d: u8, pos: nat)
    requires
        1 <= d <= 9,
        pos <= u32::MAX,
    ensures
        knot_for_digit(d, pos).digit() == d,
        knot_for_digit(d, pos).position == pos,
        knot_for_digit(d, pos).knot_type == KnotType::Long ==> knot_for_digit(d, pos).value == d,
{
}

proof fn lemma_digits_knots_sound(ds: Seq<u8>, pos: nat)
    ensures
        forall|i: int|
            0 <= i < digits_knots(ds, pos).len() ==> exists|j: int|
                #![trigger ds[j]]
                0 <= j < ds.len() && ds[j] != 0 && #[trigger] digits_knots(ds, pos)[i]
                    == knot_for_digit(ds[j], (pos + j) as nat),
    decreases ds.len(),
{
    if ds.len() > 0 {
        let t = ds.drop_first();
        lemma_digits_knots_sound(t, pos + 1);
        let rest = digits_knots(t, pos + 1);
        let dk = digits_knots(ds, pos);
        assert forall|i: int| #![trigger dk[i]] 0 <= i < dk.len() implies exists|j: int|
            #![trigger ds[j]]
            0 <= j < ds.len() && ds[j] != 0 && dk[i] == knot_for_digit(ds[j], (pos + j) as nat) by {
            if ds[0] != 0 && i == 0 {
                assert(dk[0] == knot_for_digit(ds[0], pos));
                assert(ds[0] != 0);
            } else {
                let r = if ds[0] == 0 {
                    i
                } else {
                    i - 1
                };
                assert(dk[i] == rest[r]);
                let j0 = choose|j0: int|
                    #![trigger t[j0]]
                    0 <= j0 < t.len() && t[j0] != 0 && rest[r] == knot_for_digit(
                        t[j0],
                        (pos + 1 + j0) as nat,
                    );
                assert(ds[j0 + 1] == t[j0]);
                assert((pos + 1 + j0) as nat == (pos + (j0 + 1)) as nat);
            }
        }
    }
}

proof fn lemma_digits_knots_complete(ds: Seq<u8>, pos: nat)
    ensures
        forall|j: int|
            0 <= j < ds.len() && #[trigger] ds[j] != 0 ==> exists|i: int|
                0 <= i < digits_knots(ds, pos).len() && #[trigger] digits_knots(ds, pos)[i]
                    == knot_for_digit(ds[j], (pos + j) as nat),
    decreases ds.len(),
{
    if ds.len() > 0 {
        let t = ds.drop_first();
        lemma_digits_knots_complete(t, pos + 1);
        let rest = digits_knots(t, pos + 1);
        let dk = digits_knots(ds, pos);
        assert forall|j: int| 0 <= j < ds.len() && #[trigger] ds[j] != 0 implies exists|i: int|
            0 <= i < dk.len() && #[trigger] dk[i] == knot_for_digit(ds[j], (pos + j) as nat) by {
            if j == 0 {
                assert(dk[0] == knot_for_digit(ds[0], pos));
            } else {
                assert(t[j - 1] == ds[j]);
                let i0 = choose|i0: int|
                    0 <= i0 < rest.len() && #[trigger] rest[i0] == knot_for_digit(
                        t[j - 1],
                        (pos + 1 + (j - 1)) as nat,
                    );
                let i = if ds[0] == 0 {
                    i0
                } else {
                    i0 + 1
                };
                assert(dk[i] == rest[i0]);
                assert((pos + 1 + (j - 1)) as nat == (pos + j) as nat);
            }
        }
    }
}

/// Each knot of the encoding of `n` stands for the non-zero decimal digit
/// of `n` at its position, and a long knot has exactly that many turns;
/// every non-zero decimal digit of `n` has a knot at its position.
pub proof fn lemma_encoding_digits(n: nat)
    requires
        n <= u32::MAX,
    ensures
        forall|i: int|
            0 <= i < encoding(n).len() ==> {
                let k = #[trigger] encoding(n)[i];
                &&& k.digit() == digit_at(n, k.position as nat)
                &&& k.digit() != 0
                &&& k.knot_type == KnotType::Long ==> k.value == digit_at(n, k.position as nat)
            },
        forall|p: nat|
            #[trigger] digit_at(n, p) != 0 ==> exists|i: int|
                0 <= i < encoding(n).len() && #[trigger] encoding(n)[i].position == p,
{
    let ds = decimal_digits(n);
    let enc = encoding(n);
    lemma_decimal_digits(n);
    lemma_pow10_small();
    lemma_decimal_digits_len(n, 10);
    lemma_digits_knots_sound(ds, 0);
    lemma_digits_knots_complete(ds, 0);
    assert forall|i: int| #![trigger enc[i]] 0 <= i < enc.len() implies enc[i].digit() == digit_at(
        n,
        enc[i].position as nat,
    ) && enc[i].digit() != 0 && (enc[i].knot_type == KnotType::Long ==> enc[i].value
        == digit_at(n, enc[i].position as nat)) by {
        let j = choose|j: int|
            #![trigger ds[j]]
            0 <= j < ds.len() && ds[j] != 0 && enc[i] == knot_for_digit(ds[j], (0 + j) as nat);
        assert(ds[j] < 10);
        lemma_knot_for_digit(ds[j], j as nat);
        lemma_decimal_digit_at(n, j as nat);
    }
    assert forall|p: nat| #[trigger] digit_at(n, p) != 0 implies exists|i: int|
        0 <= i < enc.len() && #[trigger] enc[i].position == p by {
        if p >= ds.len() {
            lemma_digit_at_beyond(n, p);
        }
        lemma_decimal_digit_at(n, p);
        let j = p as int;
        assert(ds[j] != 0);
        let i = choose|i: int| 0 <= i < enc.len() && #[trigger] enc[i] == knot_for_digit(ds[j], (0 + j) as nat);
        assert(ds[j] < 10);
        lemma_knot_for_digit(ds[j], p);
        assert(enc[i].position == p);
    }
}

/// A knot sequence of one knot records the knot's digit times ten to its
/// position; for a long knot, its number of turns times ten to its position.
pub proof fn lemma_single_knot_value(k: Knot)
    ensures
        knots_value(seq![k]) == k.digit() * pow10(k.position as nat),
        k.knot_type == KnotType::Long ==> knots_value(seq![k]) == k.value * pow10(
            k.position as nat,
        ),
{
    lemma_single_knot(k);
}

// ── Encode / decode ─────────────────────────────────────────────────────

/// Ten to the power `e`, for an exponent whose power fits in 32 bits.
fn pow10_u32(e: u32) -> (r: u32)
    requires
        e < 10,
    ensures
        r == pow10(e as nat),
{
    let mut r: u32 = 1;
    let mut i: u32 = 0;
    while i < e
        invariant
            i <= e < 10,
            r == pow10(i as nat),
        decreases e - i,
    {
        proof {
            lemma_pow10_monotone((i + 1) as nat, 9);
            lemma_pow10_small();
        }
        r = r * 10;
        i = i + 1;
    }
    r
}

/// Encode a non-negative integer as a sequence of quipu knots.
///
/// Each decimal digit maps to:
/// - 0: no knot at that position
/// - 1: a figure-eight knot in the units (position 0), a single knot elsewhere
/// - 2 to 9: a long knot with that many turns
///
/// The knots come in the order of their positions, units first.
pub fn encode_number(n: u32) -> (knots: Vec<Knot>)
    ensures
        knots@ == encoding(n as nat),
        knots_value(knots@) == n,
        digit_sum(knots@) == decimal_digit_sum(n as nat),
        digit_sum(knots@) <= n,
        decodable(knots@),
{
    proof {
        lemma_digit_sum_le_value(encoding(n as nat));
        lemma_encoding_roundtrip(n as nat);
        lemma_decimal_digits(n as nat);
        lemma_pow10_small();
        lemma_decimal_digits_len(n as nat, 10);
    }
    if n == 0 {
        return Vec::new();
    }
    let mut digits: Vec<u8> = Vec::new();
    let mut val: u32 = n;
    while val > 0
        invariant
            digits@ + decimal_digits(val as nat) == decimal_digits(n as nat),
        decreases val,
    {
        let ghost before = digits@;
        let ghost rest = decimal_digits((val / 10) as nat);
        assert(decimal_digits(val as nat) == seq![(val % 10) as u8] + rest);
        digits.push((val % 10) as u8);
        val = val / 10;
        assert(before + (seq![digits@.last()] + rest) =~= digits@ + rest);
    }
    assert(digits@ + decimal_digits(0) =~= digits@);
    let ghost ds = digits@;
    assert(ds == decimal_digits(n as nat));
    let mut knots: Vec<Knot> = Vec::new();
    let len = digits.len();
    let mut position: usize = 0;
    assert(ds.skip(0) =~= ds);
    assert(knots@ + digits_knots(ds, 0) =~= digits_knots(ds, 0));
    while position < len
        invariant
            len == digits@.len() == ds.len() <= 10,
            digits@ == ds,
            position <= len,
            knots@ + digits_knots(ds.skip(position as int), position as nat) == digits_knots(
                ds,
                0,
            ),
        decreases len - position,
    {
        let digit = digits[position];
        let ghost before = knots@;
        let ghost rest = digits_knots(ds.skip(position + 1), (position + 1) as nat);
        assert(ds.skip(position as int).drop_first() =~= ds.skip(position + 1));
        assert(ds.skip(position as int)[0] == digit);
        if digit == 0 {
        } else if digit == 1 {
            if position == 0 {
                knots.push(Knot { knot_type: KnotType::FigureEight, value: 1, position: 0 });
            } else {
                knots.push(
                    Knot { knot_type: KnotType::Single, value: 1, position: position as u32 },
                );
            }
        } else {
            knots.push(Knot { knot_type: KnotType::Long, value: digit, position: position as u32 });
        }
        proof {
            if digit != 0 {
                assert(knots@.last() == knot_for_digit(digit, position as nat));
                assert(before + (seq![knots@.last()] + rest) =~= knots@ + rest);
            }
        }
        position = position + 1;
    }
    assert(ds.skip(len as int) =~= Seq::<u8>::empty());
    assert(knots@ + Seq::<Knot>::empty() =~= knots@);
    knots
}

/// Decode a knot sequence back to an integer: the sum of each knot's
/// digit times ten to its position.
pub fn decode_number(knots: Vec<Knot>) -> (total: u32)
    requires
        decodable(knots@),
    ensures
        total == knots_value(knots@),
{
    let mut total: u32 = 0;
    let mut i: usize = 0;
    while i < knots.len()
        invariant
            i <= knots@.len(),
            decodable(knots@),
            total == knots_value(knots@.take(i as int)),
        decreases knots@.len() - i,
    {
        let knot = knots[i];
        assert(knot.position < 10);
        let d = knot.digit_value();
        let p = pow10_u32(knot.position);
        proof {
            assert(knots@.take(i + 1).drop_last() =~= knots@.take(i as int));
            assert(knots@.take(i + 1).last() == knot);
            lemma_prefix_bounded(knots@, i + 1);
        }
        total = total + d * p;
        i = i + 1;
    }
    assert(knots@.take(i as int) =~= knots@);
    total
}

/// Whether `decode_number` can read a knot sequence: every position is
/// below ten and the value recorded fits in 32 bits.
pub fn can_decode(knots: &Vec<Knot>) -> (ok: bool)
    ensures
        ok == decodable(knots@),
{
    let mut total: u64 = 0;
    let mut i: usize = 0;
    while i < knots.len()
        invariant
            i <= knots@.len(),
            total == knots_value(knots@.take(i as int)),
            total <= u32::MAX,
            forall|j: int| 0 <= j < i ==> #[trigger] knots@[j].position < 10,
        decreases knots@.len() - i,
    {
        let knot = knots[i];
        if knot.position >= 10 {
            return false;
        }
        let d = knot.digit_value();
        let p = pow10_u32(knot.position);
        proof {
            assert(knots@.take(i + 1).drop_last() =~= knots@.take(i as int));
            assert(knots@.take(i + 1).last() == knot);
            lemma_prefix_bounded(knots@, i + 1);
            assert(d * p <= 255 * 0xFFFF_FFFF) by (nonlinear_arith)
                requires
                    d <= 255,
                    p <= 0xFFFF_FFFF,
            ;
        }
        total = total + (d as u64) * (p as u64);
        if total > 0xFFFF_FFFF {
            return false;
        }
        i = i + 1;
    }
    assert(knots@.take(i as int) =~= knots@);
    true
}

/// Whether `checksum` can sum the digits of a knot sequence in 32 bits.
pub fn can_checksum(knots: &Vec<Knot>) -> (ok: bool)
    ensures
        ok == (digit_sum(knots@) <= u32::MAX),
{
    let mut sum: u64 = 0;
    let mut i: usize = 0;
    while i < knots.len()
        invariant
            i <= knots@.len(),
            sum == digit_sum(knots@.take(i as int)),
            sum <= u32::MAX,
        decreases knots@.len() - i,
    {
        let knot = knots[i];
        proof {
            assert(knots@.take(i + 1).drop_last() =~= knots@.take(i as int));
            assert(knots@.take(i + 1).last() == knot);
            lemma_prefix_bounded(knots@, i + 1);
        }
        sum = sum + knot.digit_value() as u64;
        if sum > 0xFFFF_FFFF {
            return false;
        }
        i = i + 1;
    }
    assert(knots@.take(i as int) =~= knots@);
    true
}

/// A simple checksum for a knot sequence: the sum of its digits, mod 10.
/// This is Incan-style error detection.
pub fn checksum(knots: Vec<Knot>) -> (c: u32)
    requires
        digit_sum(knots@) <= u32::MAX,
    ensures
        c == digit_sum(knots@) % 10,
{
    let mut sum: u32 = 0;
    let mut i: usize = 0;
    while i < knots.len()
        invariant
            i <= knots@.len(),
            digit_sum(knots@) <= u32::MAX,
            sum == digit_sum(knots@.take(i as int)),
        decreases knots@.len() - i,
    {
        let knot = knots[i];
        proof {
            assert(knots@.take(i + 1).drop_last() =~= knots@.take(i as int));
            assert(knots@.take(i + 1).last() == knot);
            lemma_prefix_bounded(knots@, i + 1);
        }
        sum = sum + knot.digit_value();
        i = i + 1;
    }
    assert(knots@.take(i as int) =~= knots@);
    sum % 10
}

} // verus!
