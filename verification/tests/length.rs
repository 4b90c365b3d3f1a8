use markov_telegram_bot::length::{ComparisonOperator, LengthRequirement};

fn requirement(comparison_operator: ComparisonOperator, value: i32) -> LengthRequirement {
    LengthRequirement {
        value,
        comparison_operator,
    }
}

#[test]
fn is_valid_asks_for_room() {
    assert!(!requirement(ComparisonOperator::LessThan, 1).is_valid());
    assert!(requirement(ComparisonOperator::LessThan, 2).is_valid());
    assert!(!requirement(ComparisonOperator::LessThanOrEqualTo, 0).is_valid());
    assert!(requirement(ComparisonOperator::LessThanOrEqualTo, 1).is_valid());
    assert!(!requirement(ComparisonOperator::EqualTo, 0).is_valid());
    assert!(requirement(ComparisonOperator::EqualTo, 1).is_valid());
    assert!(!requirement(ComparisonOperator::GreaterThan, 0).is_valid());
    assert!(requirement(ComparisonOperator::GreaterThan, 1).is_valid());
    assert!(!requirement(ComparisonOperator::GreaterThanOrEqualTo, 1).is_valid());
    assert!(requirement(ComparisonOperator::GreaterThanOrEqualTo, 2).is_valid());
    assert!(!requirement(ComparisonOperator::EqualTo, -3).is_valid());
}

#[test]
fn difference_has_the_sign_of_what_is_needed() {
    assert_eq!(1, requirement(ComparisonOperator::LessThan, 5).difference(3));
    assert_eq!(-1, requirement(ComparisonOperator::LessThan, 5).difference(5));
    assert_eq!(2, requirement(ComparisonOperator::LessThanOrEqualTo, 5).difference(3));
    assert_eq!(-2, requirement(ComparisonOperator::EqualTo, 5).difference(7));
    assert_eq!(0, requirement(ComparisonOperator::EqualTo, 5).difference(5));
    assert_eq!(1, requirement(ComparisonOperator::GreaterThan, 5).difference(5));
    assert_eq!(3, requirement(ComparisonOperator::GreaterThan, 5).difference(3));
    assert_eq!(2, requirement(ComparisonOperator::GreaterThanOrEqualTo, 5).difference(3));
}

#[test]
fn is_satisfied_by_compares() {
    assert!(requirement(ComparisonOperator::LessThan, 5).is_satisfied_by(4));
    assert!(!requirement(ComparisonOperator::LessThan, 5).is_satisfied_by(5));
    assert!(requirement(ComparisonOperator::LessThanOrEqualTo, 5).is_satisfied_by(5));
    assert!(!requirement(ComparisonOperator::LessThanOrEqualTo, 5).is_satisfied_by(6));
    assert!(requirement(ComparisonOperator::EqualTo, 5).is_satisfied_by(5));
    assert!(!requirement(ComparisonOperator::EqualTo, 5).is_satisfied_by(4));
    assert!(requirement(ComparisonOperator::GreaterThan, 5).is_satisfied_by(6));
    assert!(!requirement(ComparisonOperator::GreaterThan, 5).is_satisfied_by(5));
    assert!(requirement(ComparisonOperator::GreaterThanOrEqualTo, 5).is_satisfied_by(5));
    assert!(!requirement(ComparisonOperator::GreaterThanOrEqualTo, 5).is_satisfied_by(4));
}

#[test]
fn needs_fewer_and_needs_more_part_the_misses() {
    let all = [
        ComparisonOperator::LessThan,
        ComparisonOperator::LessThanOrEqualTo,
        ComparisonOperator::EqualTo,
        ComparisonOperator::GreaterThan,
        ComparisonOperator::GreaterThanOrEqualTo,
    ];
    for operator in all {
        for n in 0..10 {
            let r = requirement(operator, 5);
            assert_eq!(!r.is_satisfied_by(n) && r.difference(n) < 0, r.needs_fewer(n));
            assert_eq!(!r.is_satisfied_by(n) && r.difference(n) > 0, r.needs_more(n));
            assert_eq!(!r.is_satisfied_by(n), r.needs_fewer(n) || r.needs_more(n));
        }
    }
    assert!(!requirement(ComparisonOperator::GreaterThan, i32::MAX).needs_fewer(0));
    assert!(requirement(ComparisonOperator::GreaterThan, i32::MAX).needs_more(0));
    assert!(requirement(ComparisonOperator::LessThan, i32::MIN).needs_fewer(i32::MAX));
}
