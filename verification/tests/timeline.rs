use ranim::timeline::{grid_line, grid_line_has_label, grid_spacing_ms, grid_text, GridLine};

#[test]
fn grid_labels_show_the_decimals_they_need() {
    assert_eq!(grid_text(0), "0 s");
    assert_eq!(grid_text(1000), "1 s");
    assert_eq!(grid_text(1500), "1.5 s");
    assert_eq!(grid_text(1250), "1.25 s");
    assert_eq!(grid_text(1234), "1.234 s");
    assert_eq!(grid_text(20), "0.02 s");
    assert_eq!(grid_text(7), "0.007 s");
    assert_eq!(grid_text(-500), "-0.5 s");
    assert_eq!(grid_text(-3000), "-3 s");
    assert_eq!(grid_text(61_000), "61 s");
    assert_eq!(grid_text(i64::MIN), "-9223372036854775.808 s");
    assert_eq!(grid_text(i64::MAX), "9223372036854775.807 s");
}

#[test]
fn grid_labels_agree_with_float_formatting() {
    for ms in [-12_345i64, -1, 3, 10, 99, 100, 999, 1001, 45_670, 123_456_789] {
        let sec = ms as f64 / 1000.0;
        let expected = if ms % 1000 == 0 {
            format!("{sec:.0} s")
        } else if ms % 100 == 0 {
            format!("{sec:.1} s")
        } else if ms % 10 == 0 {
            format!("{sec:.2} s")
        } else {
            format!("{sec:.3} s")
        };
        assert_eq!(grid_text(ms), expected);
    }
}

#[test]
fn grid_spacing_is_the_smallest_power_of_ten_that_fits() {
    assert_eq!(grid_spacing_ms(10_000, 100), 100);
    assert_eq!(grid_spacing_ms(10_099, 100), 100);
    assert_eq!(grid_spacing_ms(10_100, 100), 1000);
    assert_eq!(grid_spacing_ms(50, 100), 1);
    assert_eq!(grid_spacing_ms(1000, 0), 10_000);
}

#[test]
fn grid_line_kinds() {
    assert_eq!(grid_line(0, 10), GridLine::Big);
    assert_eq!(grid_line(100, 10), GridLine::Medium);
    assert_eq!(grid_line(1000, 10), GridLine::Big);
    assert_eq!(grid_line(5, 1), GridLine::Tiny);
    assert_eq!(grid_line(50, 1), GridLine::Medium);
    assert!(grid_line_has_label(GridLine::Big));
    assert!(grid_line_has_label(GridLine::Medium));
    assert!(!grid_line_has_label(GridLine::Tiny));
}
