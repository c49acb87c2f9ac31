use quipu_math_wasm::{
    checksum, decode_number, detect_corruption, encode_number, quipu_add, quipu_subtract, unweave,
    weave, CordTree, CorruptionReport, Knot, KnotType, PendantCord,
};
use quipu_math_wasm::encoding::{can_checksum, can_decode};

fn tree_of(values: &[u32]) -> CordTree {
    let mut tree = CordTree::new();
    for (i, &v) in values.iter().enumerate() {
        tree.add_pendant(0xABCDEF);
        tree.encode_on_pendant(i, v);
    }
    tree
}

#[test]
fn encode_decode_roundtrip_on_edges() {
    for &n in &[0u32, 1, 9, 10, 11, 19, 20, 101, 1_000_000_000, 4_000_000_000, u32::MAX] {
        assert_eq!(decode_number(encode_number(n)), n);
    }
}

#[test]
fn encode_max_has_ten_increasing_knots() {
    // 4294967295: every decimal digit non-zero
    let knots = encode_number(u32::MAX);
    assert_eq!(knots.len(), 10);
    for (i, k) in knots.iter().enumerate() {
        assert_eq!(k.position, i as u32);
    }
    assert_eq!(knots[0].knot_type, KnotType::Long);
    assert_eq!(knots[0].value, 5);
    assert_eq!(knots[9].value, 4);
}

#[test]
fn encode_skips_zero_digits_in_position_order() {
    let knots = encode_number(30_201);
    assert_eq!(
        knots,
        vec![
            Knot::new(KnotType::FigureEight, 1, 0),
            Knot::new(KnotType::Long, 2, 2),
            Knot::new(KnotType::Long, 3, 4),
        ]
    );
}

#[test]
fn encode_one_in_non_units_is_single() {
    let knots = encode_number(110);
    assert_eq!(
        knots,
        vec![Knot::new(KnotType::Single, 1, 1), Knot::new(KnotType::Single, 1, 2)]
    );
}

#[test]
fn decode_reads_any_knots_by_digit_and_position() {
    // a long knot of 12 turns in the tens counts as 120
    let knots = vec![
        Knot::new(KnotType::Long, 12, 1),
        Knot::new(KnotType::Single, 7, 0),
        Knot::new(KnotType::FigureEight, 0, 9),
    ];
    assert_eq!(decode_number(knots), 120 + 1 + 1_000_000_000);
}

#[test]
fn checksum_is_digit_sum_mod_ten() {
    // 98765: 9 + 8 + 7 + 6 + 5 = 35
    assert_eq!(checksum(encode_number(98_765)), 5);
    assert_eq!(checksum(encode_number(u32::MAX)), (4 + 2 + 9 + 4 + 9 + 6 + 7 + 2 + 9 + 5) % 10);
    let knots = vec![Knot::new(KnotType::Long, 200, 0), Knot::new(KnotType::Single, 9, 3)];
    assert_eq!(checksum(knots), 201 % 10);
}

#[test]
fn digit_value_of_long_knot_is_its_turns() {
    assert_eq!(Knot::new(KnotType::Long, 0, 3).digit_value(), 0);
    assert_eq!(Knot::new(KnotType::Single, 9, 3).digit_value(), 1);
    assert_eq!(Knot::new(KnotType::FigureEight, 9, 0).digit_value(), 1);
}

#[test]
fn read_after_encode_leaves_others_alone() {
    let mut tree = tree_of(&[5, 6, 7]);
    tree.encode_on_pendant(1, 4242);
    assert_eq!(tree.decode_pendant(0), 5);
    assert_eq!(tree.decode_pendant(1), 4242);
    assert_eq!(tree.decode_pendant(2), 7);
    assert_eq!(tree.decode_pendant(3), 0);
    tree.encode_on_pendant(7, 1);
    assert_eq!(tree.pendant_count(), 3);
    assert_eq!(tree.total_value(), 5 + 4242 + 7);
}

#[test]
fn added_pendant_reads_zero() {
    let mut tree = tree_of(&[12]);
    tree.add_pendant(0x123456);
    assert_eq!(tree.pendant_count(), 2);
    assert_eq!(tree.pendant_count_u32(), 2);
    assert_eq!(tree.decode_pendant(1), 0);
    assert_eq!(tree.total_value(), 12);
}

#[test]
fn pendant_knots_are_a_copy() {
    let mut pc = PendantCord::new(7);
    pc.knots = encode_number(305);
    let copy = pc.knots();
    assert_eq!(copy, encode_number(305));
    let cloned = pc.clone();
    assert_eq!(cloned.color(), 7);
    assert_eq!(cloned.value(), 305);
}

#[test]
fn tree_clone_keeps_values() {
    let tree = tree_of(&[1, 22, 333]);
    let copy = tree.clone();
    let report = detect_corruption(&tree, &copy);
    assert_eq!(report, CorruptionReport::new(true, true, true));
    assert_eq!(copy.total_value(), 356);
}

#[test]
fn add_gives_green_cords_and_sums() {
    let a = tree_of(&[10, 4_000_000_000]);
    let b = tree_of(&[5, 294_967_295, 9]);
    let sum = quipu_add(&a, &b);
    assert_eq!(sum.pendant_count(), 3);
    assert_eq!(sum.decode_pendant(0), 15);
    assert_eq!(sum.decode_pendant(1), u32::MAX);
    assert_eq!(sum.decode_pendant(2), 9);
    let report = detect_corruption(&sum, &quipu_add(&b, &a));
    assert_eq!(report, CorruptionReport::new(true, true, true));
}

#[test]
fn add_totals_add_up() {
    let a = tree_of(&[1, 2, 3]);
    let b = tree_of(&[40, 50]);
    let sum = quipu_add(&a, &b);
    assert_eq!(sum.total_value(), a.total_value() + b.total_value());
}

#[test]
fn subtract_undoes_add() {
    let a = tree_of(&[7, 0, 123]);
    let b = tree_of(&[3, 9, 23, 0, 0]);
    let sum = quipu_add(&a, &b);
    let back = quipu_subtract(&sum, &b);
    assert_eq!(back.pendant_count(), 5);
    for (i, v) in [7u32, 0, 123, 0, 0].iter().enumerate() {
        assert_eq!(back.decode_pendant(i), *v);
    }
}

#[test]
fn subtract_equal_trees_gives_zeros() {
    let a = tree_of(&[31, 41, 59]);
    let diff = quipu_subtract(&a, &a);
    assert_eq!(diff.pendant_count(), 3);
    assert_eq!(diff.total_value(), 0);
}

#[test]
fn empty_trees_add_to_empty() {
    let sum = quipu_add(&CordTree::new(), &CordTree::new());
    assert_eq!(sum.pendant_count(), 0);
}

#[test]
fn self_comparison_reports_no_corruption() {
    let t = tree_of(&[9, 99, 999]);
    assert_eq!(detect_corruption(&t, &t), CorruptionReport::new(true, true, true));
}

#[test]
fn parity_only_compares_shared_pendants() {
    let a = tree_of(&[19]);
    let b = tree_of(&[28, 5]);
    // 1 + 9 and 2 + 8 share parity 0; the values differ, the counts differ
    let report = detect_corruption(&a, &b);
    assert_eq!(report, CorruptionReport::new(false, false, true));
}

#[test]
fn value_corruption_with_same_parity() {
    let a = tree_of(&[19]);
    let b = tree_of(&[28]);
    let report = detect_corruption(&a, &b);
    assert_eq!(report, CorruptionReport::new(false, true, true));
}

#[test]
fn weave_layout_is_upper_then_lower() {
    assert_eq!(weave(1, 2), (1u64 << 32) + 2);
    assert_eq!(weave(0, u32::MAX), 0xFFFF_FFFF);
    assert_eq!(weave(u32::MAX, 0), 0xFFFF_FFFF_0000_0000);
    assert_eq!(unweave(0x1234_5678_9ABC_DEF0), vec![0x1234_5678, 0x9ABC_DEF0]);
}

#[test]
fn weave_of_unwoven_halves_is_identity() {
    for &w in &[0u64, 1, 0xFFFF_FFFF, 0x1_0000_0000, u64::MAX, 0xDEAD_BEEF_0BAD_F00D] {
        let parts = unweave(w);
        assert_eq!(weave(parts[0], parts[1]), w);
    }
}

#[test]
fn can_decode_exactly_when_readable() {
    assert!(can_decode(&encode_number(u32::MAX)));
    assert!(can_decode(&vec![]));
    // a position of ten or more cannot be read, whatever its digit
    assert!(!can_decode(&vec![Knot::new(KnotType::Long, 0, 10)]));
    // 5 * 10^9 does not fit in 32 bits
    assert!(!can_decode(&vec![Knot::new(KnotType::Long, 5, 9)]));
    // 4294967295 + 1 does not fit either
    let mut knots = encode_number(u32::MAX);
    knots.push(Knot::new(KnotType::FigureEight, 1, 0));
    assert!(!can_decode(&knots));
    knots.pop();
    knots.push(Knot::new(KnotType::Long, 0, 0));
    assert!(can_decode(&knots));
    assert_eq!(decode_number(knots), u32::MAX);
}

#[test]
fn can_checksum_on_ordinary_knots() {
    assert!(can_checksum(&vec![]));
    assert!(can_checksum(&encode_number(123_456_789)));
    assert!(can_checksum(&vec![Knot::new(KnotType::Long, 255, 40); 1000]));
}

#[test]
fn tied_in_order_knots_are_the_encoding_of_their_value() {
    let knots = vec![
        Knot::new(KnotType::FigureEight, 1, 0),
        Knot::new(KnotType::Single, 1, 3),
        Knot::new(KnotType::Long, 7, 4),
        Knot::new(KnotType::Long, 4, 9),
    ];
    let value = decode_number(knots.clone());
    assert_eq!(value, 4_000_071_001);
    assert_eq!(encode_number(value), knots);
}
