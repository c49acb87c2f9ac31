use vstd::prelude::*;

use crate::encoding::{
    decodable, digit_sum, encode_number, encoding, knots_value, decode_number,
    lemma_digit_sum_le_value, lemma_encoding_roundtrip,
};
use crate::knot::Knot;

verus! {

/// The color of the cords in a sum of two trees (green).
pub const SUM_CORD_COLOR: u32 = 0x008000;

/// The color of the cords in a difference of two trees (blue).
pub const DIFFERENCE_CORD_COLOR: u32 = 0x0000FF;

// ── Models ──────────────────────────────────────────────────────────────

/// What a pendant cord is: its color and its knots.
pub struct PendantView {
    pub color: u32,
    pub knots: Seq<Knot>,
}

/// Knots in the form that `encode_number` gives them: they record a
/// 32-bit value and are exactly the encoding of that value.
pub open spec fn canonical_knots(k: Seq<Knot>) -> bool {
    knots_value(k) <= u32::MAX && k == encoding(knots_value(k))
}

/// Every pendant of a tree carries canonical knots.
pub open spec fn canonical_tree(t: Seq<PendantView>) -> bool {
    forall|i: int| 0 <= i < t.len() ==> canonical_knots(#[trigger] t[i].knots)
}

/// The value of pendant `i` of a tree, zero beyond its last pendant.
pub open spec fn value_at(t: Seq<PendantView>, i: int) -> nat {
    if 0 <= i < t.len() {
        knots_value(t[i].knots)
    } else {
        0
    }
}

/// The sum of the values of all pendants of a tree.
pub open spec fn tree_total(t: Seq<PendantView>) -> nat
    decreases t.len(),
{
    if t.len() == 0 {
        0
    } else {
        tree_total(t.drop_last()) + knots_value(t.last().knots)
    }
}

/// The parity of a knot sequence: the sum of its digits, mod 10.
pub open spec fn parity(k: Seq<Knot>) -> nat {
    digit_sum(k) % 10
}

pub open spec fn max_len(a: Seq<PendantView>, b: Seq<PendantView>) -> nat {
    if a.len() >= b.len() {
        a.len()
    } else {
        b.len()
    }
}

pub open spec fn min_len(a: Seq<PendantView>, b: Seq<PendantView>) -> nat {
    if a.len() <= b.len() {
        a.len()
    } else {
        b.len()
    }
}

/// A tree after `v` is encoded on pendant `idx`, when there is one.
pub open spec fn with_encoded(t: Seq<PendantView>, idx: int, v: nat) -> Seq<PendantView> {
    if 0 <= idx < t.len() {
        t.update(idx, PendantView { color: t[idx].color, knots: encoding(v) })
    } else {
        t
    }
}

/// The pendant-wise sum of two trees, the shorter padded with zeros.
pub open spec fn sum_tree(a: Seq<PendantView>, b: Seq<PendantView>) -> Seq<PendantView> {
    Seq::new(
        max_len(a, b),
        |i: int|
            PendantView {
                color: SUM_CORD_COLOR,
                knots: encoding(value_at(a, i) + value_at(b, i)),
            },
    )
}

/// The pendant-wise difference of two trees, the shorter padded with zeros.
pub open spec fn difference_tree(a: Seq<PendantView>, b: Seq<PendantView>) -> Seq<PendantView> {
    Seq::new(
        max_len(a, b),
        |i: int|
            PendantView {
                color: DIFFERENCE_CORD_COLOR,
                knots: encoding((value_at(a, i) - value_at(b, i)) as nat),
            },
    )
}

/// The encoding of a 32-bit value is canonical.
pub proof fn lemma_encoding_canonical(n: nat)
    requires
        n <= u32::MAX,
    ensures
        canonical_knots(encoding(n)),
        knots_value(encoding(n)) == n,
{
    lemma_encoding_roundtrip(n);
}

/// Canonical knots can be read back, and their digits sum to no more than
/// the value they record.
pub proof fn lemma_canonical_decodable(k: Seq<Knot>)
    requires
        canonical_knots(k),
    ensures
        decodable(k),
        digit_sum(k) <= knots_value(k),
{
    lemma_encoding_roundtrip(knots_value(k));
    lemma_digit_sum_le_value(k);
}

// ── PendantCord ─────────────────────────────────────────────────────────

/// A pendant cord in a cord tree.
#[derive(Debug)]
pub struct PendantCord {
    /// The color of this cord.
    pub color: u32,
    /// The knots tied on this cord.
    pub knots: Vec<Knot>,
}

impl View for PendantCord {
    type V = PendantView;

    open spec fn view(&self) -> PendantView {
        PendantView { color: self.color, knots: self.knots@ }
    }
}

impl PendantCord {
    /// A cord of the given color with no knots.
    pub fn new(color: u32) -> (cord: PendantCord)
        ensures
            cord@ == (PendantView { color, knots: Seq::empty() }),
            cord.knots@ == Seq::<Knot>::empty(),
    {
        PendantCord { color, knots: Vec::new() }
    }

    pub fn color(&self) -> (c: u32)
        ensures
            c == self@.color,
    {
        self.color
    }

    /// The numeric value encoded in this cord's knots.
    pub fn value(&self) -> (v: u32)
        requires
            decodable(self.knots@),
        ensures
            v == knots_value(self.knots@),
    {
        decode_number(self.knots())
    }

    /// Get the knots on this pendant.
    pub fn knots(&self) -> (k: Vec<Knot>)
        ensures
            k@ == self.knots@,
    {
        let mut k: Vec<Knot> = Vec::new();
        let mut i: usize = 0;
        while i < self.knots.len()
            invariant
                i <= self.knots@.len(),
                k@ == self.knots@.take(i as int),
            decreases self.knots@.len() - i,
        {
            k.push(self.knots[i]);
            i = i + 1;
            assert(k@ =~= self.knots@.take(i as int));
        }
        assert(self.knots@.take(i as int) =~= self.knots@);
        k
    }
}

impl Clone for PendantCord {
    fn clone(&self) -> (cord: PendantCord)
        ensures
            cord@ == self@,
    {
        PendantCord { color: self.color, knots: self.knots() }
    }
}

/// The views of a sequence of cords.
pub open spec fn cord_views(cords: Seq<PendantCord>) -> Seq<PendantView> {
    cords.map_values(|p: PendantCord| p@)
}

// ── CordTree ────────────────────────────────────────────────────────────

/// A full quipu: main cord with pendant cords.
#[derive(Debug)]
pub struct CordTree {
    pendants: Vec<PendantCord>,
}

impl View for CordTree {
    type V = Seq<PendantView>;

    closed spec fn view(&self) -> Seq<PendantView> {
        cord_views(self.pendants@)
    }
}

impl CordTree {
    /// Every pendant of a tree carries knots that `encode_number` made.
    #[verifier::type_invariant]
    pub open spec fn well_formed(self) -> bool {
        canonical_tree(self@)
    }

    /// Create a new empty cord tree.
    pub fn new() -> (tree: CordTree)
        ensures
            tree@ == Seq::<PendantView>::empty(),
    {
        let tree = CordTree { pendants: Vec::new() };
        assert(tree@ =~= Seq::<PendantView>::empty());
        tree
    }

    /// Add a pendant cord with the given color.
    pub fn add_pendant(&mut self, color: u32)
        ensures
            final(self)@ == old(self)@.push(PendantView { color, knots: Seq::empty() }),
            forall|j: int| #[trigger] value_at(final(self)@, j) == value_at(old(self)@, j),
    {
        proof {
            use_type_invariant(&*self);
            lemma_encoding_roundtrip(0);
        }
        let ghost before = self@;
        let ghost added = PendantView { color, knots: Seq::empty() };
        let mut pendants: Vec<PendantCord> = Vec::new();
        std::mem::swap(&mut pendants, &mut self.pendants);
        pendants.push(PendantCord { color, knots: Vec::new() });
        proof {
            assert(cord_views(pendants@) =~= before.push(added));
            assert(encoding(0) =~= Seq::<Knot>::empty());
            assert(canonical_knots(added.knots));
        }
        self.pendants = pendants;
        proof {
            assert forall|j: int| #[trigger] value_at(self@, j) == value_at(before, j) by {
                if j == before.len() {
                    assert(knots_value(Seq::<Knot>::empty()) == 0);
                }
            }
        }
    }

    /// Encode a value onto a specific pendant cord; nothing happens when
    /// there is no such pendant.
    pub fn encode_on_pendant(&mut self, pendant_idx: usize, value: u32)
        ensures
            final(self)@ == with_encoded(old(self)@, pendant_idx as int, value as nat),
            pendant_idx < old(self)@.len() ==> value_at(final(self)@, pendant_idx as int) == value,
            forall|j: int|
                j != pendant_idx ==> #[trigger] value_at(final(self)@, j) == value_at(old(self)@, j),
    {
        proof {
            use_type_invariant(&*self);
            lemma_encoding_roundtrip(value as nat);
        }
        if pendant_idx < self.pendants.len() {
            let ghost before = self@;
            let knots = encode_number(value);
            let color = self.pendants[pendant_idx].color;
            let mut pendants: Vec<PendantCord> = Vec::new();
            std::mem::swap(&mut pendants, &mut self.pendants);
            pendants.set(pendant_idx, PendantCord { color, knots });
            proof {
                assert(cord_views(pendants@) =~= with_encoded(
                    before,
                    pendant_idx as int,
                    value as nat,
                ));
            }
            self.pendants = pendants;
        }
    }

    /// Decode the value from a specific pendant cord; zero when there is no
    /// such pendant.
    pub fn decode_pendant(&self, pendant_idx: usize) -> (v: u32)
        ensures
            v == value_at(self@, pendant_idx as int),
    {
        proof {
            use_type_invariant(self);
        }
        if pendant_idx < self.pendants.len() {
            proof {
                assert(self@[pendant_idx as int] == self.pendants@[pendant_idx as int]@);
                lemma_canonical_decodable(self@[pendant_idx as int].knots);
            }
            self.pendants[pendant_idx].value()
        } else {
            0
        }
    }

    /// Sum of all pendant cord values.
    pub fn total_value(&self) -> (total: u32)
        requires
            tree_total(self@) <= u32::MAX,
        ensures
            total == tree_total(self@),
    {
        proof {
            use_type_invariant(self);
        }
        let mut total: u32 = 0;
        let mut i: usize = 0;
        while i < self.pendants.len()
            invariant
                i <= self@.len() == self.pendants@.len(),
                canonical_tree(self@),
                tree_total(self@) <= u32::MAX,
                total == tree_total(self@.take(i as int)),
            decreases self@.len() - i,
        {
            proof {
                assert(self@[i as int] == self.pendants@[i as int]@);
                lemma_canonical_decodable(self@[i as int].knots);
                assert(self@.take(i + 1).drop_last() =~= self@.take(i as int));
                lemma_tree_total_prefix(self@, i + 1);
            }
            total = total + self.pendants[i].value();
            i = i + 1;
        }
        assert(self@.take(i as int) =~= self@);
        total
    }

    /// A tree made of cords that carry canonical knots.
    pub(crate) fn from_cords(cords: Vec<PendantCord>) -> (tree: CordTree)
        requires
            canonical_tree(cord_views(cords@)),
        ensures
            tree@ == cord_views(cords@),
    {
        CordTree { pendants: cords }
    }

    /// The pendant cord at `idx`.
    pub(crate) fn pendant(&self, idx: usize) -> (cord: &PendantCord)
        requires
            idx < self@.len(),
        ensures
            cord@ == self@[idx as int],
    {
        &self.pendants[idx]
    }

    /// Number of pendant cords.
    pub fn pendant_count(&self) -> (n: usize)
        ensures
            n == self@.len(),
    {
        self.pendants.len()
    }

    /// The pendant count as a `u32` (truncated).
    pub fn pendant_count_u32(&self) -> (n: u32)
        ensures
            n == self@.len() as u32,
    {
        self.pendants.len() as u32
    }
}

impl Clone for CordTree {
    fn clone(&self) -> (tree: CordTree)
        ensures
            tree@ == self@,
    {
        proof {
            use_type_invariant(self);
        }
        let mut pendants: Vec<PendantCord> = Vec::new();
        let mut i: usize = 0;
        while i < self.pendants.len()
            invariant
                i <= self.pendants@.len() == self@.len(),
                pendants@.len() == i,
                cord_views(pendants@) == self@.take(i as int),
            decreases self.pendants@.len() - i,
        {
            let ghost before = pendants@;
            let cord = self.pendants[i].clone();
            assert(cord@ == self.pendants@[i as int]@);
            pendants.push(cord);
            assert(self@[i as int] == self.pendants@[i as int]@);
            assert(cord_views(before) == self@.take(i as int));
            assert(pendants@ == before.push(cord));
            assert forall|j: int| 0 <= j < i + 1 implies #[trigger] cord_views(pendants@)[j]
                == self@.take(i + 1)[j] by {
                if j < i {
                    assert(cord_views(before)[j] == self@.take(i as int)[j]);
                }
            }
            assert(cord_views(pendants@) =~= self@.take(i + 1));
            i = i + 1;
        }
        assert(self@.take(i as int) =~= self@);
        CordTree { pendants }
    }
}

// ── Laws ────────────────────────────────────────────────────────────────

/// Reading a pendant after encoding a value on it gives the value back;
/// every other pendant, and the number of pendants, stay as they were.
pub proof fn lemma_read_after_encode(t: Seq<PendantView>, idx: int, v: nat, j: int)
    requires
        v <= u32::MAX,
    ensures
        with_encoded(t, idx, v).len() == t.len(),
        0 <= idx < t.len() ==> value_at(with_encoded(t, idx, v), idx) == v,
        j != idx ==> value_at(with_encoded(t, idx, v), j) == value_at(t, j),
        !(0 <= idx < t.len()) ==> with_encoded(t, idx, v) == t,
{
    lemma_encoding_roundtrip(v);
}

/// A newly added pendant reads zero, and the total does not change.
pub proof fn lemma_added_pendant_reads_zero(t: Seq<PendantView>, color: u32)
    ensures
        value_at(t.push(PendantView { color, knots: Seq::empty() }), t.len() as int) == 0,
        tree_total(t.push(PendantView { color, knots: Seq::empty() })) == tree_total(t),
{
    let u = t.push(PendantView { color, knots: Seq::empty() });
    assert(u.drop_last() =~= t);
    assert(knots_value(Seq::<Knot>::empty()) == 0);
}

proof fn lemma_tree_total_append(a: Seq<PendantView>, b: Seq<PendantView>)
    ensures
        tree_total(a + b) == tree_total(a) + tree_total(b),
    decreases b.len(),
{
    if b.len() == 0 {
        assert(a + b =~= a);
    } else {
        assert((a + b).drop_last() =~= a + b.drop_last());
        lemma_tree_total_append(a, b.drop_last());
    }
}

proof fn lemma_tree_total_prefix(t: Seq<PendantView>, i: int)
    requires
        0 <= i <= t.len(),
    ensures
        tree_total(t.take(i)) <= tree_total(t),
{
    assert(t =~= t.take(i) + t.skip(i));
    lemma_tree_total_append(t.take(i), t.skip(i));
}

} // verus!
