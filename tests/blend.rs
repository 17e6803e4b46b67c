use beacon::blend::{blend, Blend};
use beacon::color::RGB;
use beacon::error::SearchError;

fn as_floats(b: &Blend) -> (f64, f64, f64) {
    let d = b.denominator as f64;
    (b.red as f64 / d, b.green as f64 / d, b.blue as f64 / d)
}

#[test]
fn single_pane_is_unweighted() {
    let palette = vec![RGB::new(12, 34, 56), RGB::new(200, 100, 0)];
    let b = blend(&palette, &vec![1]).unwrap();
    assert_eq!(b, Blend { red: 200, green: 100, blue: 0, denominator: 1 });
    assert_eq!(as_floats(&b), (200.0, 100.0, 0.0));
}

#[test]
fn two_panes_share_equal_weight() {
    let palette = vec![RGB::new(255, 0, 0), RGB::new(0, 255, 0)];
    let b = blend(&palette, &vec![0, 1]).unwrap();
    assert_eq!(b, Blend { red: 255, green: 255, blue: 0, denominator: 2 });
    assert_eq!(as_floats(&b), (127.5, 127.5, 0.0));
}

#[test]
fn uniform_panes_keep_their_color() {
    let palette = vec![RGB::new(100, 100, 100)];
    let b = blend(&palette, &vec![0, 0, 0]).unwrap();
    assert_eq!(b.denominator, 4);
    assert_eq!(as_floats(&b), (100.0, 100.0, 100.0));
}

#[test]
fn weights_double_from_the_third_position() {
    let palette = vec![RGB::new(1, 0, 0), RGB::new(0, 1, 0), RGB::new(0, 0, 1), RGB::new(8, 8, 8)];
    // weights 1, 1, 2, 4 over a divisor of 8
    let b = blend(&palette, &vec![0, 1, 2, 3]).unwrap();
    assert_eq!(b, Blend { red: 1 + 32, green: 1 + 32, blue: 2 + 32, denominator: 8 });
}

#[test]
fn later_panes_dominate() {
    let palette = vec![RGB::new(0, 0, 0), RGB::new(240, 0, 0)];
    let b = blend(&palette, &vec![0, 0, 1]).unwrap();
    assert_eq!(as_floats(&b), (120.0, 0.0, 0.0));
    let b = blend(&palette, &vec![1, 0, 0]).unwrap();
    assert_eq!(as_floats(&b), (60.0, 0.0, 0.0));
}

#[test]
fn empty_combination_is_black() {
    let palette = vec![RGB::new(9, 9, 9)];
    let b = blend(&palette, &vec![]).unwrap();
    assert_eq!(b, Blend { red: 0, green: 0, blue: 0, denominator: 1 });
}

#[test]
fn position_outside_palette_is_missing_key() {
    let palette = vec![RGB::new(9, 9, 9), RGB::new(1, 1, 1)];
    assert_eq!(blend(&palette, &vec![0, 2]), Err(SearchError::MissingKey));
}
