use quipu_math_wasm::{
    checksum, decode_number, detect_corruption, encode_number, quipu_add, quipu_subtract, unweave,
    weave, CordTree, CorruptionReport, Knot, KnotType, PendantCord,
};

// ── Knot basics ─────────────────────────────────────────────────

#[test]
fn test_knot_digit_value_figure_eight() {
    let k = Knot::new(KnotType::FigureEight, 1, 0);
    assert_eq!(k.digit_value(), 1);
}

#[test]
fn test_knot_digit_value_single() {
    let k = Knot::new(KnotType::Single, 1, 1);
    assert_eq!(k.digit_value(), 1);
}

#[test]
fn test_knot_digit_value_long() {
    let k = Knot::new(KnotType::Long, 7, 0);
    assert_eq!(k.digit_value(), 7);
}

#[test]
fn test_knot_equality() {
    let k1 = Knot::new(KnotType::Long, 5, 1);
    let k2 = Knot::new(KnotType::Long, 5, 1);
    assert_eq!(k1, k2);
}

#[test]
fn test_knot_type_equality() {
    assert_eq!(KnotType::Single, KnotType::Single);
    assert_ne!(KnotType::Single, KnotType::Long);
}

// ── Encode ──────────────────────────────────────────────────────

#[test]
fn test_encode_zero() {
    let knots = encode_number(0);
    assert!(knots.is_empty());
}

#[test]
fn test_encode_one() {
    let knots = encode_number(1);
    assert_eq!(knots.len(), 1);
    assert_eq!(knots[0].knot_type, KnotType::FigureEight);
    assert_eq!(knots[0].position, 0);
}

#[test]
fn test_encode_nine() {
    let knots = encode_number(9);
    assert_eq!(knots.len(), 1);
    assert_eq!(knots[0].knot_type, KnotType::Long);
    assert_eq!(knots[0].value, 9);
}

#[test]
fn test_encode_ten() {
    let knots = encode_number(10);
    assert_eq!(knots.len(), 1);
    assert_eq!(knots[0].knot_type, KnotType::Single);
    assert_eq!(knots[0].position, 1);
}

#[test]
fn test_encode_247() {
    let knots = encode_number(247);
    assert_eq!(knots.len(), 3);
    // digits: 7 (units=0), 4 (tens=1), 2 (hundreds=2)
    let by_pos: std::collections::HashMap<u32, &Knot> =
        knots.iter().map(|k| (k.position, k)).collect();
    assert_eq!(by_pos[&0].knot_type, KnotType::Long);
    assert_eq!(by_pos[&0].value, 7);
    assert_eq!(by_pos[&1].knot_type, KnotType::Long);
    assert_eq!(by_pos[&1].value, 4);
    assert_eq!(by_pos[&2].knot_type, KnotType::Long);
    assert_eq!(by_pos[&2].value, 2);
}

#[test]
fn test_encode_1001() {
    let knots = encode_number(1001);
    assert_eq!(knots.len(), 2);
    let by_pos: std::collections::HashMap<u32, &Knot> =
        knots.iter().map(|k| (k.position, k)).collect();
    // 1 in units → figure_eight, 1 in thousands → single
    assert_eq!(by_pos[&0].knot_type, KnotType::FigureEight);
    assert_eq!(by_pos[&3].knot_type, KnotType::Single);
}

// ── Decode ──────────────────────────────────────────────────────

#[test]
fn test_decode_empty() {
    assert_eq!(decode_number(vec![]), 0);
}

#[test]
fn test_roundtrip_single_digits() {
    for n in 1u32..10 {
        assert_eq!(decode_number(encode_number(n)), n);
    }
}

#[test]
fn test_roundtrip_various() {
    for &n in &[0u32, 1, 10, 42, 100, 247, 1000, 9999] {
        assert_eq!(decode_number(encode_number(n)), n, "roundtrip failed for {}", n);
    }
}

// ── Checksum ────────────────────────────────────────────────────

#[test]
fn test_checksum_empty() {
    assert_eq!(checksum(vec![]), 0);
}

#[test]
fn test_checksum_247() {
    // encode_number(247) → digits 7, 4, 2 → sum = 13 → 13 % 10 = 3
    let knots = encode_number(247);
    assert_eq!(checksum(knots), 3);
}

#[test]
fn test_checksum_single_digit() {
    let knots = encode_number(5);
    assert_eq!(checksum(knots), 5);
}

// ── CordTree ────────────────────────────────────────────────────

#[test]
fn test_cord_tree_empty() {
    let tree = CordTree::new();
    assert_eq!(tree.pendant_count(), 0);
    assert_eq!(tree.total_value(), 0);
}

#[test]
fn test_cord_tree_add_pendant() {
    let mut tree = CordTree::new();
    tree.add_pendant(0xFF0000); // red
    tree.add_pendant(0x0000FF); // blue
    assert_eq!(tree.pendant_count(), 2);
}

#[test]
fn test_cord_tree_encode_decode_pendant() {
    let mut tree = CordTree::new();
    tree.add_pendant(0xFF0000);
    tree.encode_on_pendant(0, 42);
    assert_eq!(tree.decode_pendant(0), 42);
}

#[test]
fn test_cord_tree_total_value() {
    let mut tree = CordTree::new();
    tree.add_pendant(0xFF0000);
    tree.encode_on_pendant(0, 100);
    tree.add_pendant(0x0000FF);
    tree.encode_on_pendant(1, 47);
    assert_eq!(tree.total_value(), 147);
}

#[test]
fn test_cord_tree_decode_out_of_bounds() {
    let tree = CordTree::new();
    assert_eq!(tree.decode_pendant(0), 0);
}

#[test]
fn test_cord_tree_encode_out_of_bounds() {
    let mut tree = CordTree::new();
    tree.encode_on_pendant(0, 42); // should be no-op
    assert_eq!(tree.pendant_count(), 0);
}

#[test]
fn test_pendant_cord_value() {
    let mut pc = PendantCord::new(0xFF0000);
    pc.knots = encode_number(99);
    assert_eq!(pc.value(), 99);
    assert_eq!(pc.color(), 0xFF0000);
}

// ── Quipu arithmetic ────────────────────────────────────────────

#[test]
fn test_quipu_add() {
    let mut a = CordTree::new();
    a.add_pendant(0xFFFFFF);
    a.encode_on_pendant(0, 10);
    let mut b = CordTree::new();
    b.add_pendant(0xFFFFFF);
    b.encode_on_pendant(0, 25);
    let result = quipu_add(&a, &b);
    assert_eq!(result.pendant_count(), 1);
    assert_eq!(result.decode_pendant(0), 35);
}

#[test]
fn test_quipu_add_multiple() {
    let mut a = CordTree::new();
    a.add_pendant(0xFFFFFF);
    a.encode_on_pendant(0, 10);
    a.add_pendant(0xFFFFFF);
    a.encode_on_pendant(1, 20);
    let mut b = CordTree::new();
    b.add_pendant(0xFFFFFF);
    b.encode_on_pendant(0, 5);
    b.add_pendant(0xFFFFFF);
    b.encode_on_pendant(1, 15);
    let result = quipu_add(&a, &b);
    assert_eq!(result.decode_pendant(0), 15);
    assert_eq!(result.decode_pendant(1), 35);
}

#[test]
fn test_quipu_subtract() {
    let mut a = CordTree::new();
    a.add_pendant(0xFFFFFF);
    a.encode_on_pendant(0, 50);
    let mut b = CordTree::new();
    b.add_pendant(0xFFFFFF);
    b.encode_on_pendant(0, 20);
    let result = quipu_subtract(&a, &b);
    assert_eq!(result.decode_pendant(0), 30);
}

#[test]
fn test_quipu_add_different_lengths() {
    let mut a = CordTree::new();
    a.add_pendant(0xFFFFFF);
    a.encode_on_pendant(0, 10);
    a.add_pendant(0xFFFFFF);
    a.encode_on_pendant(1, 20);
    let mut b = CordTree::new();
    b.add_pendant(0xFFFFFF);
    b.encode_on_pendant(0, 5);
    let result = quipu_add(&a, &b);
    assert_eq!(result.pendant_count(), 2);
    assert_eq!(result.decode_pendant(0), 15);
    assert_eq!(result.decode_pendant(1), 20);
}

// ── Corruption detection ────────────────────────────────────────

#[test]
fn test_detect_no_corruption() {
    let mut tree1 = CordTree::new();
    tree1.add_pendant(0xFF0000);
    tree1.encode_on_pendant(0, 42);
    let mut tree2 = CordTree::new();
    tree2.add_pendant(0xFF0000);
    tree2.encode_on_pendant(0, 42);
    let report = detect_corruption(&tree1, &tree2);
    assert!(report.value_ok);
    assert!(report.count_ok);
    assert!(report.parity_ok);
}

#[test]
fn test_detect_value_corruption() {
    let mut tree1 = CordTree::new();
    tree1.add_pendant(0xFF0000);
    tree1.encode_on_pendant(0, 10);
    let mut tree2 = CordTree::new();
    tree2.add_pendant(0xFF0000);
    tree2.encode_on_pendant(0, 20);
    let report = detect_corruption(&tree1, &tree2);
    assert!(!report.value_ok);
    assert!(report.count_ok);
}

#[test]
fn test_detect_count_corruption() {
    let mut tree1 = CordTree::new();
    tree1.add_pendant(0xFF0000);
    tree1.encode_on_pendant(0, 10);
    let mut tree2 = CordTree::new();
    tree2.add_pendant(0xFF0000);
    tree2.encode_on_pendant(0, 10);
    tree2.add_pendant(0x0000FF);
    tree2.encode_on_pendant(1, 5);
    let report = detect_corruption(&tree1, &tree2);
    assert!(!report.count_ok);
    assert!(!report.value_ok); // counts differ → values can't all match
}

#[test]
fn test_detect_parity_corruption() {
    // Two different values that might coincidentally have different parity
    let mut tree1 = CordTree::new();
    tree1.add_pendant(0xFF0000);
    tree1.encode_on_pendant(0, 7); // digit sum = 7, parity = 7
    let mut tree2 = CordTree::new();
    tree2.add_pendant(0xFF0000);
    tree2.encode_on_pendant(0, 8); // digit sum = 8, parity = 8
    let report = detect_corruption(&tree1, &tree2);
    assert!(!report.parity_ok);
    assert!(!report.value_ok);
}

#[test]
fn test_corruption_report_constructor() {
    let report = CorruptionReport::new(true, false, true);
    assert!(report.value_ok);
    assert!(!report.count_ok);
    assert!(report.parity_ok);
}

#[test]
fn test_corruption_report_equality() {
    let r1 = CorruptionReport::new(true, true, false);
    let r2 = CorruptionReport::new(true, true, false);
    assert_eq!(r1, r2);
}

// ── Weave / Unweave ─────────────────────────────────────────────

#[test]
fn test_weave_basic() {
    let woven = weave(3, 7);
    let parts = unweave(woven);
    assert_eq!(parts[0], 3);
    assert_eq!(parts[1], 7);
}

#[test]
fn test_weave_roundtrip() {
    let woven = weave(42, 13);
    let parts = unweave(woven);
    assert_eq!(parts[0], 42);
    assert_eq!(parts[1], 13);
}

#[test]
fn test_weave_zero() {
    let woven = weave(0, 0);
    assert_eq!(woven, 0);
    let parts = unweave(0);
    assert_eq!(parts[0], 0);
    assert_eq!(parts[1], 0);
}

#[test]
fn test_weave_max() {
    let woven = weave(u32::MAX, u32::MAX);
    let parts = unweave(woven);
    assert_eq!(parts[0], u32::MAX);
    assert_eq!(parts[1], u32::MAX);
}

#[test]
fn test_weave_large_values() {
    let woven = weave(9999, 12345);
    let parts = unweave(woven);
    assert_eq!(parts[0], 9999);
    assert_eq!(parts[1], 12345);
}

// ── Pendant cord ────────────────────────────────────────────────

#[test]
fn test_pendant_knots() {
    let mut pc = PendantCord::new(0x00FF00);
    pc.knots = encode_number(55);
    assert_eq!(pc.knots().len(), 2); // 5 at position 0, 5 at position 1
}

#[test]
fn test_pendant_empty_value() {
    let pc = PendantCord::new(0xFFFFFF);
    assert_eq!(pc.value(), 0);
}

// ── Large number roundtrip ──────────────────────────────────────

#[test]
fn test_large_number_roundtrip() {
    let n = 123456u32;
    assert_eq!(decode_number(encode_number(n)), n);
}

#[test]
fn test_max_u32_small() {
    // Test with a value that fits well
    for &n in &[99u32, 999, 9999, 99999] {
        assert_eq!(decode_number(encode_number(n)), n);
    }
}

// ── Corruption with multiple pendants ───────────────────────────

#[test]
fn test_detect_corruption_multi_pendant() {
    let mut orig = CordTree::new();
    orig.add_pendant(0xFF0000);
    orig.encode_on_pendant(0, 100);
    orig.add_pendant(0x0000FF);
    orig.encode_on_pendant(1, 200);

    let mut copy = CordTree::new();
    copy.add_pendant(0xFF0000);
    copy.encode_on_pendant(0, 100);
    copy.add_pendant(0x0000FF);
    copy.encode_on_pendant(1, 200);

    let report = detect_corruption(&orig, &copy);
    assert!(report.value_ok);
    assert!(report.count_ok);
    assert!(report.parity_ok);
}

#[test]
fn test_detect_corruption_partial_mismatch() {
    let mut orig = CordTree::new();
    orig.add_pendant(0xFF0000);
    orig.encode_on_pendant(0, 100);
    orig.add_pendant(0x0000FF);
    orig.encode_on_pendant(1, 200);

    let mut copy = CordTree::new();
    copy.add_pendant(0xFF0000);
    copy.encode_on_pendant(0, 100);
    copy.add_pendant(0x0000FF);
    copy.encode_on_pendant(1, 201); // corrupted

    let report = detect_corruption(&orig, &copy);
    assert!(!report.value_ok);
}
