use qhist::bar::bar_string;
use qhist::bar::render;
use qhist::bar::scale;
use qhist::bar::CountRange;

#[test]
fn scale_places_a_count_within_the_range() {
    let half = scale(2, 1, 3);
    assert_eq!((half.numer(), half.denom()), (1, 2));
    let third = scale(4, 1, 10);
    assert_eq!((third.numer(), third.denom()), (3, 9));
}

#[test]
fn scale_is_zero_at_the_lower_end_and_one_at_the_upper() {
    let low = scale(1, 1, 3);
    assert_eq!(low.numer(), 0);
    assert!(low.denom() > 0);
    let high = scale(3, 1, 3);
    assert_eq!(high.numer(), high.denom());
}

#[test]
fn scale_of_an_empty_range_is_zero() {
    for count in [0u64, 1, 5, u64::MAX] {
        let same = scale(count, 5, 5);
        assert_eq!(same.numer(), 0);
        assert!(same.denom() > 0);
        let reversed = scale(count, u64::MAX, 0);
        assert_eq!(reversed.numer(), 0);
        assert!(reversed.denom() > 0);
    }
}

#[test]
fn scale_stays_between_zero_and_one() {
    let below = scale(0, 2, 8);
    assert_eq!(below.numer(), 0);
    let above = scale(100, 2, 8);
    assert_eq!(above.numer(), above.denom());
    for min in 0..6u64 {
        for max in 0..6u64 {
            for count in 0..8u64 {
                let scaled = scale(count, min, max);
                assert!(scaled.denom() > 0);
                assert!(scaled.numer() <= scaled.denom());
            }
        }
    }
}

#[test]
fn render_rounds_the_bar_down() {
    assert_eq!(render(scale(2, 1, 3), 100), "-".repeat(50));
    assert_eq!(render(scale(2, 1, 4), 100), "-".repeat(33));
    assert_eq!(render(scale(3, 1, 4), 100), "-".repeat(66));
    assert_eq!(render(scale(3, 1, 4), 1), "");
    assert_eq!(render(scale(4, 1, 4), 1), "-");
    assert_eq!(render(scale(4, 1, 4), 7), "-------");
}

#[test]
fn render_with_no_length_draws_nothing() {
    assert_eq!(render(scale(3, 1, 3), 0), "");
    assert_eq!(render(scale(2, 1, 3), 0), "");
}

#[test]
fn bar_string_scales_and_draws() {
    assert_eq!(bar_string(3, 3, 1, 100), "-".repeat(100));
    assert_eq!(bar_string(2, 3, 1, 100), "-".repeat(50));
    assert_eq!(bar_string(1, 3, 1, 100), "");
    assert_eq!(bar_string(1, 1, 1, 100), "");
    assert_eq!(bar_string(7, 1, 1, 100), "");
    assert_eq!(bar_string(u64::MAX, u64::MAX, 0, 10), "----------");
    assert_eq!(bar_string(u64::MAX - 1, u64::MAX, 0, 10), "---------");
}

#[test]
fn count_range_widens_on_both_sides() {
    let empty = CountRange::new();
    assert_eq!(empty, CountRange { min_count: u64::MAX, max_count: 0 });
    let one = empty.widen(4);
    assert_eq!(one, CountRange { min_count: 4, max_count: 4 });
    let two = one.widen(9).widen(2).widen(5);
    assert_eq!(two, CountRange { min_count: 2, max_count: 9 });
}
