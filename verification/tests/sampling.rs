use markov_telegram_bot::sampling::{choose_from_frequency_map, pick, sum, weighted_order};

#[test]
fn pick_takes_the_first_position_past_the_draw() {
    let weights = vec![2, 1, 3];
    assert_eq!(0, pick(&weights, 0));
    assert_eq!(0, pick(&weights, 1));
    assert_eq!(1, pick(&weights, 2));
    assert_eq!(2, pick(&weights, 3));
    assert_eq!(2, pick(&weights, 5));
    assert_eq!(0, pick(&vec![i64::MAX, i64::MAX], i64::MAX as i128 - 1));
    assert_eq!(1, pick(&vec![i64::MAX, i64::MAX], i64::MAX as i128));
}

#[test]
fn sum_adds_past_the_counter() {
    assert_eq!(0, sum(&vec![]));
    assert_eq!(6, sum(&vec![2, 1, 3]));
    assert_eq!(2 * (i64::MAX as i128), sum(&vec![i64::MAX, i64::MAX]));
}

#[test]
fn choose_stays_within_the_weights() {
    assert_eq!(0, choose_from_frequency_map(&vec![1]));
    assert_eq!(0, choose_from_frequency_map(&vec![i64::MAX]));
    let weights = vec![1, 5, 2];
    let mut seen = [false; 3];
    for _ in 0..500 {
        let at = choose_from_frequency_map(&weights);
        assert!(at < 3);
        seen[at] = true;
    }
    assert_eq!([true, true, true], seen);
}

#[test]
fn weighted_order_gives_every_position_once() {
    assert_eq!(Vec::<usize>::new(), weighted_order(&vec![]));
    assert_eq!(vec![0], weighted_order(&vec![7]));
    for _ in 0..50 {
        let mut order = weighted_order(&vec![5, 1, 1, 9, 2]);
        order.sort();
        assert_eq!(vec![0, 1, 2, 3, 4], order);
    }
}

#[test]
fn weighted_order_prefers_the_heavy() {
    let mut heavy_first = 0;
    for _ in 0..200 {
        if weighted_order(&vec![1, 1000])[0] == 1 {
            heavy_first += 1;
        }
    }
    assert!(heavy_first > 150);
}
