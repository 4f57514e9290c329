use pathtracer::scan::{hit, Interval};
use std::cell::RefCell;

fn key(d: f32) -> u32 {
    d.to_bits()
}

/// A primitive with its nearest intersection above the lower bound at `d`.
fn test_against(model: &[Option<f32>]) -> impl Fn(usize, Interval) -> Option<(u32, usize)> + '_ {
    move |i: usize, iv: Interval| match model[i] {
        Some(d) if key(d) > iv.min && key(d) < iv.max => Some((key(d), i)),
        _ => None,
    }
}

fn full() -> Interval {
    Interval { min: key(0.001), max: key(f32::MAX) }
}

#[test]
fn empty_scene_misses() {
    let model: Vec<Option<f32>> = vec![];
    assert!(hit(0, full(), test_against(&model)).is_none());
}

#[test]
fn all_misses_give_none() {
    let model = vec![None, None, None];
    assert!(hit(3, full(), test_against(&model)).is_none());
}

#[test]
fn nearest_of_several() {
    let model = vec![Some(5.0), None, Some(2.0), Some(3.5)];
    let r = hit(4, full(), test_against(&model)).unwrap();
    assert_eq!(r.index, 2);
    assert_eq!(f32::from_bits(r.key), 2.0);
    assert_eq!(r.hit, 2);
}

#[test]
fn equal_distances_keep_first() {
    let model = vec![Some(4.0), Some(2.0), Some(2.0)];
    let r = hit(3, full(), test_against(&model)).unwrap();
    assert_eq!(r.index, 1);
}

#[test]
fn hits_outside_interval_ignored() {
    let model = vec![Some(0.0005), Some(9.0), Some(7.0)];
    let iv = Interval { min: key(0.001), max: key(8.0) };
    let r = hit(3, iv, test_against(&model)).unwrap();
    assert_eq!(r.index, 2);
    assert_eq!(f32::from_bits(r.key), 7.0);
}

#[test]
fn order_of_primitives_does_not_change_distance() {
    let base = [Some(3.0f32), None, Some(1.25), Some(8.0), Some(1.5)];
    let perms: [[usize; 5]; 4] = [[0, 1, 2, 3, 4], [4, 3, 2, 1, 0], [2, 0, 4, 1, 3], [1, 3, 0, 4, 2]];
    for p in perms {
        let model: Vec<Option<f32>> = p.iter().map(|&i| base[i]).collect();
        let r = hit(5, full(), test_against(&model)).unwrap();
        assert_eq!(f32::from_bits(r.key), 1.25);
        assert_eq!(p[r.index], 2);
    }
}

#[test]
fn upper_bound_never_increases() {
    let model = vec![Some(6.0), Some(9.0), Some(2.0), None, Some(4.0), Some(1.0)];
    let asked = RefCell::new(Vec::new());
    let inner = test_against(&model);
    let probe = |i: usize, iv: Interval| {
        asked.borrow_mut().push(iv);
        inner(i, iv)
    };
    let r = hit(6, full(), probe).unwrap();
    assert_eq!(r.index, 5);
    let asked = asked.into_inner();
    assert_eq!(asked.len(), 6);
    assert_eq!(asked[0], full());
    for w in asked.windows(2) {
        assert_eq!(w[0].min, w[1].min);
        assert!(w[1].max <= w[0].max);
    }
    assert_eq!(f32::from_bits(asked[1].max), 6.0);
    assert_eq!(f32::from_bits(asked[5].max), 2.0);
}

#[test]
fn keys_order_like_distances() {
    let ds = [0.001f32, 0.5, 1.0, 1.0000001, 2.0, 100.0, f32::MAX];
    for w in ds.windows(2) {
        assert!(key(w[0]) < key(w[1]));
    }
}
