use freq_sketch::estimator::Estimator;

#[test]
fn incr() {
    let mut est = Estimator::new(8, 8);
    let v = est.incr("a", 1);
    assert_eq!(v, 1);
    let v = est.incr("b", 1);
    assert_eq!(v, 1);
    let v = est.incr("a", 2);
    assert_eq!(v, 3);
    let v = est.incr("b", 2);
    assert_eq!(v, 3);
}

#[test]
fn desc() {
    let mut est = Estimator::new(8, 8);
    est.incr("a", 3);
    est.incr("b", 3);
    est.decr("a", 1);
    est.decr("b", 1);
    assert_eq!(est.get("a"), 2);
    assert_eq!(est.get("b"), 2);
}

#[test]
fn get() {
    let mut est = Estimator::new(8, 8);
    est.incr("a", 1);
    est.incr("a", 2);
    est.incr("b", 1);
    est.incr("b", 2);
    assert_eq!(est.get("a"), 3);
    assert_eq!(est.get("b"), 3);
}

#[test]
fn fresh_estimator_reads_zero() {
    let est = Estimator::new(4, 16);
    assert_eq!(est.get("a"), 0);
    assert_eq!(est.get(""), 0);
    assert_eq!(est.get("never seen"), 0);
}

#[test]
fn single_row_single_slot() {
    let mut est = Estimator::new(1, 1);
    assert_eq!(est.incr("a", 5), 5);
    assert_eq!(est.incr("b", 7), 12);
    assert_eq!(est.get("c"), 12);
    est.decr("d", 2);
    assert_eq!(est.get("a"), 10);
}

#[test]
fn one_slot_rows_sum_every_key() {
    let mut est = Estimator::with_seeds(vec![1, 2, 3], 1);
    assert_eq!(est.incr("a", 1), 1);
    assert_eq!(est.incr("b", 1), 2);
    assert_eq!(est.incr("c", 40), 42);
    assert_eq!(est.get("z"), 42);
}

#[test]
fn returned_estimates_never_decrease_under_increments() {
    let mut est = Estimator::new(4, 4);
    let keys = ["a", "b", "c", "d", "e", "f", "g", "h", "i", "j"];
    let mut last = 0;
    for round in 0..50 {
        for key in keys.iter() {
            est.incr(*key, 1 + (round % 3));
        }
        let now = est.incr("a", 2);
        assert!(now >= last);
        assert!(now >= last + 2);
        last = now;
    }
}

#[test]
fn incr_raises_the_estimate_by_the_value() {
    let mut est = Estimator::new(3, 5);
    est.incr("x", 4);
    est.incr("y", 9);
    let before = est.get("x");
    assert_eq!(est.incr("x", 6), before + 6);
    assert_eq!(est.get("x"), before + 6);
}

#[test]
fn get_is_repeatable() {
    let mut est = Estimator::new(8, 8);
    est.incr("a", 3);
    est.incr("b", 5);
    let first = est.get("a");
    for _ in 0..10 {
        assert_eq!(est.get("a"), first);
    }
    assert_eq!(est.get("b"), est.get("b"));
}

#[test]
fn reset_clears_every_key() {
    let mut est = Estimator::new(4, 8);
    let keys = ["a", "b", "c", "d", "e", "f"];
    for key in keys.iter() {
        est.incr(*key, 7);
    }
    est.decr("a", 20);
    est.reset();
    for key in keys.iter() {
        assert_eq!(est.get(*key), 0);
    }
    assert_eq!(est.get("unseen"), 0);
    assert_eq!(est.incr("a", 1), 1);
}

#[test]
fn never_under_estimates() {
    let mut est = Estimator::new(2, 3);
    let keys = ["a", "b", "c", "d", "e", "f", "g", "h"];
    for (n, key) in keys.iter().enumerate() {
        for _ in 0..(n + 1) {
            est.incr(*key, 1);
        }
    }
    for (n, key) in keys.iter().enumerate() {
        assert!(est.get(*key) >= (n + 1) as isize);
    }
    assert!(est.get("a") <= 36);
}

#[test]
fn same_seeds_give_the_same_estimates() {
    let seeds: Vec<u64> = vec![11, 22, 33, 44];
    let mut first = Estimator::with_seeds(seeds.clone(), 4);
    let mut second = Estimator::with_seeds(seeds, 4);
    let keys = ["a", "b", "c", "d", "e", "f", "g", "h", "i", "j", "k", "l"];
    for (n, key) in keys.iter().enumerate() {
        let value = (n as isize) + 1;
        assert_eq!(first.incr(*key, value), second.incr(*key, value));
    }
    for key in keys.iter() {
        assert_eq!(first.get(*key), second.get(*key));
    }
}

#[test]
fn incr_wraps_on_overflow() {
    let mut est = Estimator::with_seeds(vec![5], 1);
    assert_eq!(est.incr("a", isize::MAX), isize::MAX);
    assert_eq!(est.incr("a", 1), isize::MIN);
    assert_eq!(est.get("a"), isize::MIN);
    assert_eq!(est.incr("a", -1), isize::MAX);
}

#[test]
fn decr_wraps_on_overflow() {
    let mut est = Estimator::with_seeds(vec![5, 6], 2);
    est.decr("a", isize::MAX);
    est.decr("a", 1);
    assert_eq!(est.get("a"), isize::MIN);
    est.decr("a", 1);
    assert_eq!(est.get("a"), isize::MAX);
}

#[test]
fn decr_below_zero_goes_negative() {
    let mut est = Estimator::new(8, 8);
    est.decr("a", 4);
    assert_eq!(est.get("a"), -4);
    assert_eq!(est.incr("a", 1), -3);
}

#[test]
fn decr_takes_back_incr() {
    let mut est = Estimator::new(4, 4);
    let keys = ["a", "b", "c", "d", "e"];
    for key in keys.iter() {
        est.incr(*key, 3);
    }
    let before: Vec<isize> = keys.iter().map(|key| est.get(*key)).collect();
    est.incr("c", 1000);
    est.decr("c", 1000);
    let after: Vec<isize> = keys.iter().map(|key| est.get(*key)).collect();
    assert_eq!(before, after);
}

#[test]
fn negative_increment_is_a_decrement() {
    let mut est = Estimator::new(8, 8);
    est.incr("a", 10);
    assert_eq!(est.incr("a", -4), 6);
}

#[test]
fn a_string_and_its_bytes_are_one_key() {
    let mut est = Estimator::new(8, 64);
    assert_eq!(est.incr("ab", 2), 2);
    assert_eq!(est.incr(&b"ab"[..], 3), 5);
    assert_eq!(est.get("ab"), 5);
    est.decr(&b"ab"[..], 5);
    assert_eq!(est.get("ab"), 0);
}

#[test]
fn byte_keys_are_counted() {
    let mut est = Estimator::new(8, 64);
    let first = 7u32.to_be_bytes();
    let second = 8u32.to_be_bytes();
    assert_eq!(est.incr(&first[..], 1), 1);
    assert_eq!(est.incr(&second[..], 1), 1);
    assert_eq!(est.incr(&first[..], 1), 2);
    assert_eq!(est.get(&second[..]), 1);
    let owned: Vec<u8> = vec![0, 0, 0, 7];
    assert_eq!(est.get(owned.as_slice()), 2);
}

#[test]
fn empty_key_is_a_key() {
    let mut est = Estimator::new(8, 64);
    assert_eq!(est.incr("", 4), 4);
    assert_eq!(est.get(&b""[..]), 4);
}
