use beacon::blend::blend;
use beacon::color::RGB;
use beacon::error::SearchError;
use beacon::search::{combination_at, reduce, Search, SearchResult};

fn linear(c: f64) -> f64 {
    let x = c / 255.0;
    if x <= 0.04045 {
        x / 12.92
    } else {
        ((x + 0.055) / 1.055).powf(2.4)
    }
}

fn lab(rgb: [f64; 3]) -> [f64; 3] {
    let [r, g, b] = [linear(rgb[0]), linear(rgb[1]), linear(rgb[2])];
    let x = 0.4124564 * r + 0.3575761 * g + 0.1804375 * b;
    let y = 0.2126729 * r + 0.7151522 * g + 0.0721750 * b;
    let z = 0.0193339 * r + 0.1191920 * g + 0.9503041 * b;
    let f = |t: f64| {
        if t > 0.008856 {
            t.powf(1.0 / 3.0)
        } else {
            (903.3 * t + 16.0) / 116.0
        }
    };
    let (fx, fy, fz) = (f(x / 0.95047), f(y / 1.0), f(z / 1.08883));
    [116.0 * fy - 16.0, 500.0 * (fx - fy), 200.0 * (fy - fz)]
}

fn distance(palette: &Vec<RGB>, combination: &Vec<usize>, target: RGB) -> f64 {
    let b = blend(palette, combination).unwrap();
    let d = b.denominator as f64;
    let l1 = lab([b.red as f64 / d, b.green as f64 / d, b.blue as f64 / d]);
    let l2 = lab([target.red as f64, target.green as f64, target.blue as f64]);
    ((l1[0] - l2[0]).powi(2) + (l1[1] - l2[1]).powi(2) + (l1[2] - l2[2]).powi(2)).sqrt()
}

/// Drives a walk to its end, measuring each leaf with `measure`; returns
/// the result and the number of leaves measured.
fn run(mut s: Search, measure: &dyn Fn(&Vec<usize>) -> u64) -> (SearchResult, u64) {
    let mut leaves: u64 = 0;
    while !s.done() {
        let c = s.current();
        s.record(measure(&c));
        leaves += 1;
    }
    (s.finish(), leaves)
}

fn toy_key(c: &Vec<usize>) -> u64 {
    // a key with ties and no monotone structure
    let mut h: u64 = 7;
    for &x in c {
        h = (h * 31 + x as u64 * 17 + 3) % 23;
    }
    h
}

#[test]
fn combinations_follow_depth_first_order() {
    assert_eq!(combination_at(0, 3, 3), vec![0, 0, 0]);
    assert_eq!(combination_at(1, 3, 3), vec![0, 0, 1]);
    assert_eq!(combination_at(3, 3, 3), vec![0, 1, 0]);
    assert_eq!(combination_at(26, 3, 3), vec![2, 2, 2]);
    assert_eq!(combination_at(11, 3, 3), vec![1, 0, 2]);
}

#[test]
fn walk_measures_every_leaf() {
    for (p, d) in [(1usize, 4usize), (2, 3), (3, 4), (5, 2)] {
        let (_, leaves) = run(Search::new(p, d).unwrap(), &toy_key);
        assert_eq!(leaves, (p as u64).pow(d as u32));
        let mut total = 0;
        for first in 0..p {
            let (r, n) = run(Search::starting_with(first, p, d).unwrap(), &toy_key);
            assert_eq!(r.combination[0], first);
            total += n;
        }
        assert_eq!(total, (p as u64).pow(d as u32));
    }
}

#[test]
fn split_walk_matches_single_walk() {
    for (p, d) in [(2usize, 3usize), (3, 3), (4, 2), (3, 1)] {
        let (whole, _) = run(Search::new(p, d).unwrap(), &toy_key);
        let parts: Vec<SearchResult> =
            (0..p).map(|f| run(Search::starting_with(f, p, d).unwrap(), &toy_key).0).collect();
        let merged = reduce(&parts).unwrap();
        assert_eq!(merged.key, whole.key);
        assert_eq!(merged.combination, whole.combination);
    }
}

#[test]
fn smallest_key_wins_first_on_ties() {
    let keys = [5u64, 3, 3, 9];
    let mut s = Search::new(2, 2).unwrap();
    for k in keys {
        assert!(!s.done());
        s.record(k);
    }
    assert!(s.done());
    let r = s.finish();
    assert_eq!(r.key, 3);
    assert_eq!(r.combination, vec![0, 1]);
}

#[test]
fn white_is_closest_to_cyan() {
    let names = ["white", "black"];
    let palette = vec![RGB::new(249, 255, 254), RGB::new(29, 29, 33)];
    let target = RGB::new_from_number(0x00ffff);
    let measure = |c: &Vec<usize>| distance(&palette, c, target).to_bits();
    let parts: Vec<SearchResult> =
        (0..2).map(|f| run(Search::starting_with(f, 2, 1).unwrap(), &measure).0).collect();
    let best = reduce(&parts).unwrap();
    assert_eq!(names[best.combination[0]], "white");
    let d = f64::from_bits(best.key);
    assert!((d - 48.74002077718976).abs() < 1e-9);
    assert!((distance(&palette, &vec![1], target) - 94.74140472229851).abs() < 1e-9);
}

#[test]
fn single_entry_palette_depth_one() {
    let palette = vec![RGB::new(10, 20, 30)];
    let target = RGB::new(200, 0, 0);
    let measure = |c: &Vec<usize>| distance(&palette, c, target).to_bits();
    let (r, leaves) = run(Search::new(1, 1).unwrap(), &measure);
    assert_eq!(leaves, 1);
    assert_eq!(r.combination, vec![0]);
}

#[test]
fn empty_palette_is_invalid_input() {
    assert!(matches!(Search::new(0, 5), Err(SearchError::InvalidInput)));
    assert!(matches!(Search::starting_with(0, 0, 5), Err(SearchError::InvalidInput)));
}

#[test]
fn zero_depth_is_invalid_input() {
    assert!(matches!(Search::new(3, 0), Err(SearchError::InvalidInput)));
}

#[test]
fn too_many_leaves_is_invalid_input() {
    assert!(matches!(Search::new(16, 16), Err(SearchError::InvalidInput)));
    assert!(Search::new(16, 15).is_ok());
}

#[test]
fn start_outside_palette_is_missing_key() {
    assert!(matches!(Search::starting_with(3, 3, 2), Err(SearchError::MissingKey)));
}

#[test]
fn reduce_of_nothing_is_invalid_input() {
    assert!(matches!(reduce(&vec![]), Err(SearchError::InvalidInput)));
}

#[test]
fn reduce_keeps_first_of_equal_keys() {
    let results = vec![
        SearchResult { key: 4, combination: vec![0] },
        SearchResult { key: 2, combination: vec![1] },
        SearchResult { key: 2, combination: vec![2] },
    ];
    let r = reduce(&results).unwrap();
    assert_eq!(r.key, 2);
    assert_eq!(r.combination, vec![1]);
}
