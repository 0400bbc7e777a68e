use floyd_warshall::distance::Distance;
use std::cmp::Ordering;

#[test]
fn ordering_finite_below_finite_below_inf() {
    assert!(Distance::Finite(3) < Distance::Finite(5));
    assert!(Distance::Finite(5) < Distance::Inf);
    assert!(Distance::Finite(3) < Distance::Inf);
    assert!(Distance::Finite(0) < Distance::Inf);
    assert!(!(Distance::Inf < Distance::Inf));
    assert_eq!(Distance::Inf, Distance::Inf);
    assert_eq!(Distance::Finite(7), Distance::Finite(7));
    assert_ne!(Distance::Finite(7), Distance::Finite(8));
    assert_ne!(Distance::Finite(7), Distance::Inf);
}

#[test]
fn inf_absorbs_under_addition() {
    assert_eq!(Distance::Inf.add(Distance::Finite(4)), Distance::Inf);
    assert_eq!(Distance::Finite(4).add(Distance::Inf), Distance::Inf);
    assert_eq!(Distance::Inf.add(Distance::Inf), Distance::Inf);
}

#[test]
fn finite_addition_adds_weights() {
    assert_eq!(
        Distance::Finite(2).add(Distance::Finite(3)),
        Distance::Finite(5)
    );
    assert_eq!(
        Distance::Finite(0).add(Distance::Finite(9)),
        Distance::Finite(9)
    );
    assert_eq!(
        Distance::Finite(9).add(Distance::Finite(0)),
        Distance::Finite(9)
    );
}

#[test]
fn finite_addition_saturates_at_max() {
    assert_eq!(
        Distance::Finite(u32::MAX).add(Distance::Finite(1)),
        Distance::Finite(u32::MAX)
    );
    assert_eq!(
        Distance::Finite(u32::MAX - 1).add(Distance::Finite(5)),
        Distance::Finite(u32::MAX)
    );
    assert_eq!(
        Distance::Finite(u32::MAX - 1).add(Distance::Finite(1)),
        Distance::Finite(u32::MAX)
    );
}

#[test]
fn min_picks_the_lesser_distance() {
    assert_eq!(
        Distance::Finite(2).min(Distance::Finite(3)),
        Distance::Finite(2)
    );
    assert_eq!(
        Distance::Finite(3).min(Distance::Finite(2)),
        Distance::Finite(2)
    );
    assert_eq!(Distance::Finite(2).min(Distance::Inf), Distance::Finite(2));
    assert_eq!(Distance::Inf.min(Distance::Finite(2)), Distance::Finite(2));
    assert_eq!(Distance::Inf.min(Distance::Inf), Distance::Inf);
}

#[test]
fn partial_cmp_matches_the_order() {
    assert_eq!(
        Distance::Finite(1).partial_cmp(&Distance::Finite(2)),
        Some(Ordering::Less)
    );
    assert_eq!(
        Distance::Finite(2).partial_cmp(&Distance::Finite(2)),
        Some(Ordering::Equal)
    );
    assert_eq!(
        Distance::Finite(3).partial_cmp(&Distance::Finite(2)),
        Some(Ordering::Greater)
    );
    assert_eq!(
        Distance::Finite(3).partial_cmp(&Distance::Inf),
        Some(Ordering::Less)
    );
    assert_eq!(
        Distance::Inf.partial_cmp(&Distance::Finite(3)),
        Some(Ordering::Greater)
    );
    assert_eq!(
        Distance::Inf.partial_cmp(&Distance::Inf),
        Some(Ordering::Equal)
    );
}

#[test]
fn render_finite_as_decimal_and_inf_as_token() {
    assert_eq!(Distance::Finite(0).render(), "0");
    assert_eq!(Distance::Finite(5).render(), "5");
    assert_eq!(Distance::Finite(305).render(), "305");
    assert_eq!(Distance::Finite(u32::MAX).render(), "4294967295");
    assert_eq!(Distance::Inf.render(), "Inf");
}
