use cdl::common::BinOp;

#[test]
fn fold_wraps_arithmetic() {
    assert_eq!(BinOp::Add.fold(i32::MAX, 1), Some(i32::MIN));
    assert_eq!(BinOp::Sub.fold(i32::MIN, 1), Some(i32::MAX));
    assert_eq!(BinOp::Mul.fold(65536, 65536), Some(0));
    assert_eq!(BinOp::Add.fold(2, 3), Some(5));
}

#[test]
fn fold_negation_of_least_number_is_itself() {
    assert_eq!(BinOp::Sub.fold(0, i32::MIN), Some(i32::MIN));
}

#[test]
fn fold_divides_towards_zero() {
    assert_eq!(BinOp::Div.fold(7, 2), Some(3));
    assert_eq!(BinOp::Div.fold(-7, 2), Some(-3));
    assert_eq!(BinOp::Div.fold(7, -2), Some(-3));
    assert_eq!(BinOp::Div.fold(i32::MIN, -1), Some(i32::MIN));
    assert_eq!(BinOp::Mod.fold(-7, 2), Some(-1));
    assert_eq!(BinOp::Mod.fold(7, -2), Some(1));
    assert_eq!(BinOp::Mod.fold(i32::MIN, -1), Some(0));
}

#[test]
fn fold_has_no_value_for_division_by_zero() {
    assert_eq!(BinOp::Div.fold(1, 0), None);
    assert_eq!(BinOp::Mod.fold(1, 0), None);
}

#[test]
fn fold_power() {
    assert_eq!(BinOp::Power.fold(2, 10), Some(1024));
    assert_eq!(BinOp::Power.fold(3, 0), Some(1));
    assert_eq!(BinOp::Power.fold(2, 32), Some(0));
    assert_eq!(BinOp::Power.fold(2, -1), None);
}

#[test]
fn fold_bits_and_shifts() {
    assert_eq!(BinOp::BitAnd.fold(12, 10), Some(8));
    assert_eq!(BinOp::BitOr.fold(12, 10), Some(14));
    assert_eq!(BinOp::BitXor.fold(12, 10), Some(6));
    assert_eq!(BinOp::BitXor.fold(5, -1), Some(-6));
    assert_eq!(BinOp::ShiftLeft.fold(1, 4), Some(16));
    assert_eq!(BinOp::ShiftLeft.fold(1, 33), Some(2));
    assert_eq!(BinOp::ShiftRight.fold(-16, 2), Some(-4));
}

#[test]
fn fold_compares() {
    assert_eq!(BinOp::CmpEq.fold(1, 1), Some(1));
    assert_eq!(BinOp::CmpNeq.fold(1, 1), Some(0));
    assert_eq!(BinOp::CmpLt.fold(1, 2), Some(1));
    assert_eq!(BinOp::CmpGt.fold(1, 2), Some(0));
    assert_eq!(BinOp::CmpLeq.fold(2, 2), Some(1));
    assert_eq!(BinOp::CmpGeq.fold(1, 2), Some(0));
}

#[test]
fn flip_swaps_sides() {
    let ops = [BinOp::CmpEq, BinOp::CmpNeq, BinOp::CmpLt, BinOp::CmpGt, BinOp::CmpLeq, BinOp::CmpGeq];
    for op in ops {
        for a in [-2, 0, 3] {
            for b in [-2, 0, 3] {
                assert_eq!(op.flip().fold(b, a), op.fold(a, b));
                assert_ne!(op.invert().fold(a, b), op.fold(a, b));
            }
        }
    }
    assert_eq!(BinOp::CmpLt.flip(), BinOp::CmpGt);
    assert_eq!(BinOp::CmpLeq.invert(), BinOp::CmpGt);
}

#[test]
fn fold_same_is_fold_of_equal_sides() {
    let ops = [BinOp::CmpEq, BinOp::CmpNeq, BinOp::CmpLt, BinOp::CmpGt, BinOp::CmpLeq, BinOp::CmpGeq];
    for op in ops {
        assert_eq!(Some(op.fold_same()), op.fold(7, 7));
    }
}

#[test]
fn precedence_and_names() {
    assert_eq!(BinOp::Power.prec(), 1);
    assert_eq!(BinOp::Mul.prec(), 2);
    assert_eq!(BinOp::Add.prec(), 3);
    assert_eq!(BinOp::ShiftLeft.prec(), 4);
    assert_eq!(BinOp::CmpLt.prec(), 5);
    assert_eq!(BinOp::CmpEq.prec(), 6);
    assert_eq!(BinOp::BitAnd.prec(), 7);
    assert_eq!(BinOp::BitXor.prec(), 8);
    assert_eq!(BinOp::BitOr.prec(), 9);
    assert_eq!(BinOp::Add.to_str(), "+");
    assert_eq!(BinOp::BitXor.to_str(), "XOR");
    assert_eq!(BinOp::CmpNeq.to_str(), "!=");
    assert_eq!(BinOp::CmpEq.to_str(), "=");
    assert!(BinOp::CmpGeq.is_compare());
    assert!(!BinOp::Mod.is_compare());
}
