use kenken::kenken::{Area, Field, Type};

#[test]
fn test_add_two_fields() {
    let area = Area::new(Type::Add, 10, vec![Field(0, 0), Field(1, 0)]);
    let asgs = area.possible_assignments(9);
    assert_eq!(asgs.len(), 8)
}

#[test]
fn test_add_three_straight_fields() {
    let area = Area::new(Type::Add, 10, vec![Field(0, 0), Field(1, 0), Field(2, 0)]);
    let asgs = area.possible_assignments(9);
    assert_eq!(asgs.len(), 24)
}

#[test]
fn test_add_three_fields_corner() {
    let area = Area::new(Type::Add, 10, vec![Field(0, 0), Field(1, 0), Field(0, 1)]);
    let asgs = area.possible_assignments(9);
    assert_eq!(asgs.len(), 28)
}

#[test]
fn test_add_four_fields_rect() {
    let area = Area::new(
        Type::Add,
        8,
        vec![Field(0, 0), Field(1, 0), Field(0, 1), Field(1, 1)],
    );
    let asgs = area.possible_assignments(9);
    println!("{:?}", asgs);
    assert_eq!(asgs.len(), 10)
}

#[test]
fn test_sub() {
    let area = Area::new(Type::Sub, 4, vec![Field(0, 0), Field(1, 0)]);
    let asgs = area.possible_assignments(9);
    println!("{:?}", asgs);
    assert_eq!(asgs.len(), 10)
}

#[test]
fn test_div() {
    let area = Area::new(Type::Div, 2, vec![Field(0, 0), Field(1, 0)]);
    let asgs = area.possible_assignments(9);
    println!("{:?}", asgs);
    assert_eq!(asgs.len(), 8)
}

#[test]
fn test_single() {
    let area = Area::new(Type::Single, 5, vec![Field(0, 0)]);
    let asgs = area.possible_assignments(9);
    println!("{:?}", asgs);
    assert_eq!(asgs.len(), 1)
}

#[test]
fn test_add_candidates_hit_target_without_conflict() {
    let area = Area::new(Type::Add, 10, vec![Field(0, 0), Field(1, 0)]);
    let asgs = area.possible_assignments(9);
    for asg in &asgs {
        let a = asg.get(&Field(0, 0)).unwrap();
        let b = asg.get(&Field(1, 0)).unwrap();
        assert_eq!(a as u64 + b as u64, 10);
        assert_ne!(a, b);
        assert!(1 <= a && a <= 9);
        assert!(1 <= b && b <= 9);
    }
}

#[test]
fn test_sub_candidates_hit_target() {
    let area = Area::new(Type::Sub, 4, vec![Field(0, 0), Field(1, 0)]);
    let asgs = area.possible_assignments(9);
    for asg in &asgs {
        let a = asg.get(&Field(0, 0)).unwrap();
        let b = asg.get(&Field(1, 0)).unwrap();
        let diff = if a > b { a - b } else { b - a };
        assert_eq!(diff, 4);
    }
}

#[test]
fn test_div_candidates_hit_target() {
    let area = Area::new(Type::Div, 2, vec![Field(0, 0), Field(1, 0)]);
    let asgs = area.possible_assignments(9);
    for asg in &asgs {
        let a = asg.get(&Field(0, 0)).unwrap();
        let b = asg.get(&Field(1, 0)).unwrap();
        let (lo, hi) = if a > b { (b, a) } else { (a, b) };
        assert_eq!(lo * 2, hi);
    }
}

#[test]
fn test_single_candidate_value() {
    let area = Area::new(Type::Single, 5, vec![Field(2, 3)]);
    let asgs = area.possible_assignments(9);
    assert_eq!(asgs.len(), 1);
    assert_eq!(asgs[0].get(&Field(2, 3)), Some(5));
    assert_eq!(asgs[0].get(&Field(0, 0)), None);
}

#[test]
fn test_single_out_of_range_has_no_candidates() {
    // a one-cell cage whose target cannot be played yields nothing
    let too_big = Area::new(Type::Single, 12, vec![Field(0, 0)]);
    assert_eq!(too_big.possible_assignments(9).len(), 0);
    let zero = Area::new(Type::Single, 0, vec![Field(0, 0)]);
    assert_eq!(zero.possible_assignments(9).len(), 0);
}

#[test]
fn test_mul_two_fields() {
    let area = Area::new(Type::Mul, 12, vec![Field(0, 0), Field(1, 0)]);
    let asgs = area.possible_assignments(9);
    // 12 = 2*6 = 6*2 = 3*4 = 4*3 (1*12 and 12*1 are out of range)
    assert_eq!(asgs.len(), 4);
    for asg in &asgs {
        let a = asg.get(&Field(0, 0)).unwrap();
        let b = asg.get(&Field(1, 0)).unwrap();
        assert_eq!(a as u64 * b as u64, 12);
    }
}

#[test]
fn test_sub_target_zero_has_no_candidates() {
    let area = Area::new(Type::Sub, 0, vec![Field(0, 0), Field(1, 0)]);
    let asgs = area.possible_assignments(9);
    assert_eq!(asgs.len(), 0);
}

#[test]
fn test_div_non_exact_pairs_yield_nothing() {
    // target 5 on a 9-grid: only 1/5 divides exactly
    let area = Area::new(Type::Div, 5, vec![Field(0, 0), Field(1, 0)]);
    let asgs = area.possible_assignments(9);
    assert_eq!(asgs.len(), 2);
}

#[test]
fn test_generation_deterministic() {
    let area = Area::new(Type::Add, 10, vec![Field(0, 0), Field(1, 0), Field(0, 1)]);
    let first = area.possible_assignments(9);
    let second = area.possible_assignments(9);
    assert_eq!(first, second);
}

#[test]
fn test_generation_size_one() {
    let area = Area::new(Type::Add, 1, vec![Field(0, 0)]);
    let asgs = area.possible_assignments(1);
    assert_eq!(asgs.len(), 1);
    assert_eq!(asgs[0].get(&Field(0, 0)), Some(1));
}

#[test]
fn test_mul_three_fields_in_row() {
    // product 8 over three cells of one row: only the orderings of 1, 2, 4
    let area = Area::new(Type::Mul, 8, vec![Field(0, 0), Field(1, 0), Field(2, 0)]);
    let asgs = area.possible_assignments(9);
    assert_eq!(asgs.len(), 6);
}
