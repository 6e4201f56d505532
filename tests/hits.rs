use aobench::hit::{closer, first_hit, nearest_hit};

fn key(t: f32) -> u32 {
    t.to_bits()
}

fn keys(ts: &[f32]) -> Vec<u32> {
    ts.iter().map(|t| key(*t)).collect()
}

#[test]
fn closer_needs_positive_and_strictly_smaller() {
    let best = key(1.0e17);
    assert!(closer(key(2.5), best));
    assert!(!closer(key(0.0), best));
    assert!(!closer(key(-0.0), best));
    assert!(!closer(key(-3.0), best));
    assert!(!closer(key(1.0e17), best));
    assert!(!closer(key(f32::NAN), best));
    assert!(!closer(key(f32::INFINITY), best));
    assert!(closer(key(1.0), key(2.0)));
    assert!(!closer(key(2.0), key(1.0)));
}

#[test]
fn nearest_hit_takes_global_minimum() {
    let limit = key(1.0e17);
    assert_eq!(nearest_hit(&keys(&[3.5, 2.0, 0.0, 2.8]), limit), Some(1));
    assert_eq!(nearest_hit(&keys(&[-1.0, 5.0, 4.0]), limit), Some(2));
    assert_eq!(nearest_hit(&keys(&[0.0, -2.0]), limit), None);
    assert_eq!(nearest_hit(&Vec::new(), limit), None);
    assert_eq!(nearest_hit(&keys(&[2.0e17]), limit), None);
}

#[test]
fn nearest_hit_ties_go_to_first_declared() {
    let limit = key(1.0e17);
    assert_eq!(nearest_hit(&keys(&[4.0, 1.25, 1.25, 3.0]), limit), Some(1));
    assert_eq!(nearest_hit(&keys(&[1.25, 1.25]), limit), Some(0));
}

#[test]
fn nearest_hit_distance_independent_of_order() {
    let ts = [3.5f32, 2.0, -1.0, 2.8, 0.0, 7.25];
    let orders: [[usize; 6]; 4] = [[0, 1, 2, 3, 4, 5], [5, 4, 3, 2, 1, 0], [2, 0, 5, 1, 4, 3], [1, 3, 5, 0, 2, 4]];
    for order in orders.iter() {
        let permuted: Vec<f32> = order.iter().map(|i| ts[*i]).collect();
        let i = nearest_hit(&keys(&permuted), key(1.0e17)).unwrap();
        assert_eq!(permuted[i], 2.0);
    }
}

#[test]
fn first_hit_stops_at_first_accepted() {
    let limit = key(1.0e9);
    assert_eq!(first_hit(&keys(&[0.0, 5.0, 1.0]), limit), Some(1));
    assert_eq!(first_hit(&keys(&[-1.0, 0.0]), limit), None);
    assert_eq!(first_hit(&keys(&[2.0e9, 3.0]), limit), Some(1));
    assert_eq!(first_hit(&Vec::new(), limit), None);
}
