use snow_routes::data::SnowStatusElement;
use snow_routes::snow::{blend_depths, merge_snow_statuses};

fn obs(p1: u64, p2: u64, discriminator: Option<u64>, depth: i64) -> SnowStatusElement {
    SnowStatusElement { p1, p2, discriminator, depth }
}

#[test]
fn merge_snow_zero_zero_two_four() {
    let merged = merge_snow_statuses(vec![
        obs(1, 2, None, 0),
        obs(1, 2, None, 0),
        obs(1, 2, None, 2),
        obs(1, 2, None, 4),
    ]);
    assert_eq!(merged, vec![obs(1, 2, None, 3)]);
}

#[test]
fn merge_snow_keeps_first_occurrence_order() {
    let merged = merge_snow_statuses(vec![
        obs(5, 6, None, 1),
        obs(1, 2, None, 7),
        obs(5, 6, Some(1), 2),
        obs(1, 2, None, 3),
        obs(5, 6, None, 9),
        obs(3, 4, None, 0),
    ]);
    assert_eq!(
        merged,
        vec![obs(5, 6, None, 5), obs(1, 2, None, 5), obs(5, 6, Some(1), 2), obs(3, 4, None, 0)]
    );
}

#[test]
fn merge_snow_is_stable_under_more_observations() {
    let first = vec![obs(9, 8, None, 4), obs(1, 2, None, 1), obs(9, 8, None, 2)];
    let mut all = first.clone();
    all.extend(vec![obs(7, 7, None, 3), obs(1, 2, None, 5), obs(9, 8, None, 0)]);
    let a = merge_snow_statuses(first);
    let b = merge_snow_statuses(all);
    assert_eq!(a.len(), 2);
    assert_eq!(b.len(), 3);
    for i in 0..a.len() {
        assert_eq!((a[i].p1, a[i].p2, a[i].discriminator), (b[i].p1, b[i].p2, b[i].discriminator));
    }
    assert_eq!((b[2].p1, b[2].p2), (7, 7));
}

#[test]
fn merge_snow_ends_and_discriminator_make_the_key() {
    let merged = merge_snow_statuses(vec![
        obs(1, 2, None, 4),
        obs(2, 1, None, 8),
        obs(1, 2, Some(0), 6),
    ]);
    assert_eq!(merged, vec![obs(1, 2, None, 4), obs(2, 1, None, 8), obs(1, 2, Some(0), 6)]);
}

#[test]
fn merge_snow_of_nothing_is_nothing() {
    assert_eq!(merge_snow_statuses(vec![]), vec![]);
}

#[test]
fn merge_snow_negative_depths() {
    assert_eq!(merge_snow_statuses(vec![obs(1, 2, None, -5)]), vec![obs(1, 2, None, -5)]);
    assert_eq!(
        merge_snow_statuses(vec![obs(1, 2, None, -1), obs(1, 2, None, -3)]),
        vec![obs(1, 2, None, -1)]
    );
    assert_eq!(
        merge_snow_statuses(vec![obs(1, 2, None, -3), obs(1, 2, None, -1), obs(1, 2, None, 0)]),
        vec![obs(1, 2, None, 0)]
    );
    assert_eq!(
        merge_snow_statuses(vec![obs(1, 2, None, 6), obs(1, 2, None, -5)]),
        vec![obs(1, 2, None, 6)]
    );
}

#[test]
fn blend_is_the_greater_until_both_are_positive() {
    assert_eq!(blend_depths(0, 0), 0);
    assert_eq!(blend_depths(0, 2), 2);
    assert_eq!(blend_depths(2, 0), 2);
    assert_eq!(blend_depths(-3, -1), -1);
    assert_eq!(blend_depths(2, 4), 3);
    assert_eq!(blend_depths(2, 5), 3);
    assert_eq!(blend_depths(1, 1), 1);
    assert_eq!(blend_depths(i64::MAX, i64::MAX), i64::MAX);
    assert_eq!(blend_depths(i64::MAX, 1), i64::MAX / 2 + 1);
}
