use pack_match::ratio::Ratio;

fn ratio(num: u128, den: u128) -> Ratio {
    Ratio { num, den }
}

#[test]
fn less_than_orders_simple_fractions() {
    assert!(ratio(1, 3).less_than(&ratio(1, 2)));
    assert!(!ratio(1, 2).less_than(&ratio(1, 3)));
    assert!(ratio(2, 3).less_than(&ratio(3, 4)));
    assert!(!ratio(3, 4).less_than(&ratio(2, 3)));
}

#[test]
fn less_than_is_false_for_equal_values() {
    assert!(!ratio(1, 2).less_than(&ratio(2, 4)));
    assert!(!ratio(2, 4).less_than(&ratio(1, 2)));
    assert!(!ratio(0, 5).less_than(&ratio(0, 7)));
    assert!(!ratio(7, 7).less_than(&ratio(3, 3)));
}

#[test]
fn less_than_handles_zero_and_improper_fractions() {
    assert!(ratio(0, 1).less_than(&ratio(1, 1000)));
    assert!(!ratio(1, 1000).less_than(&ratio(0, 1)));
    assert!(ratio(7, 2).less_than(&ratio(15, 4)));
    assert!(ratio(15, 4).less_than(&ratio(4, 1)));
    assert!(!ratio(9, 2).less_than(&ratio(17, 4)));
}

#[test]
fn less_than_needs_several_rounds_for_close_fractions() {
    // 13/21 and 21/34 are neighbouring quotients of Fibonacci numbers:
    // 13 * 34 = 442 and 21 * 21 = 441.
    assert!(ratio(21, 34).less_than(&ratio(13, 21)));
    assert!(!ratio(13, 21).less_than(&ratio(21, 34)));
}

#[test]
fn less_than_is_exact_where_products_overflow() {
    let big = u128::MAX;
    // (big - 1) / big < big / big
    assert!(ratio(big - 1, big).less_than(&ratio(big, big)));
    assert!(!ratio(big, big).less_than(&ratio(big - 1, big)));
    // (big - 2) / (big - 1) < (big - 1) / big
    assert!(ratio(big - 2, big - 1).less_than(&ratio(big - 1, big)));
    assert!(!ratio(big - 1, big).less_than(&ratio(big - 2, big - 1)));
}

#[test]
fn less_than_agrees_with_cross_multiplication_on_small_values() {
    for a in 0u128..7 {
        for b in 1u128..7 {
            for c in 0u128..7 {
                for d in 1u128..7 {
                    assert_eq!(ratio(a, b).less_than(&ratio(c, d)), a * d < c * b);
                    assert_eq!(ratio(a, b).same_value(&ratio(c, d)), a * d == c * b);
                }
            }
        }
    }
}

#[test]
fn same_value_ignores_the_representation() {
    assert!(ratio(1, 2).same_value(&ratio(2, 4)));
    assert!(ratio(4, 12).same_value(&ratio(1, 3)));
    assert!(!ratio(1, 2).same_value(&ratio(2, 3)));
    assert_ne!(ratio(1, 2), ratio(2, 4));
}
