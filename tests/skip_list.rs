use skiplist::level::next_level;
use skiplist::{random_level, SkipList, MAX_LEVEL};

fn build(values: &[i32]) -> SkipList {
    let mut s = SkipList::new();
    for &v in values {
        s.insert(v);
    }
    s
}

#[test]
fn concrete_scenario() {
    let s = build(&[3, 6, 9, 2, 11, 1, 4]);
    assert!(s.search(4));
    assert!(!s.search(5));
    assert!(s.search(11));
    assert!(!s.search(0));
    assert_eq!(s.to_vec(), vec![1, 2, 3, 4, 6, 9, 11]);
}

#[test]
fn empty_list_finds_nothing() {
    let s = SkipList::new();
    for v in [i32::MIN, -1, 0, 1, 42, i32::MAX] {
        assert!(!s.search(v));
    }
    assert_eq!(s.to_vec(), Vec::<i32>::new());
    assert_eq!(s.level(), 0);
}

#[test]
fn traversal_is_strictly_increasing() {
    let values: Vec<i32> = (0..500).map(|k: i32| (k * 7919) % 1009 - 500).collect();
    let s = build(&values);
    let out = s.to_vec();
    for w in out.windows(2) {
        assert!(w[0] < w[1]);
    }
    let mut expected = values.clone();
    expected.sort();
    expected.dedup();
    assert_eq!(out, expected);
}

#[test]
fn inserted_values_are_found_and_others_not() {
    let values: Vec<i32> = (0..200).map(|k: i32| k * 3).collect();
    let mut s = SkipList::new();
    for &v in &values {
        s.insert(v);
        assert!(s.search(v));
    }
    for k in -10..610 {
        assert_eq!(s.search(k), k >= 0 && k < 600 && k % 3 == 0);
    }
}

#[test]
fn second_insert_changes_nothing() {
    let mut s = build(&[5, 1, 9]);
    let before = s.to_vec();
    let level = s.level();
    s.insert(9);
    assert_eq!(s.to_vec(), before);
    assert_eq!(s.level(), level);
    s.insert(1);
    s.insert(1);
    assert_eq!(s.to_vec(), vec![1, 5, 9]);
}

#[test]
fn level_never_decreases() {
    let mut s = SkipList::new();
    let mut last = s.level();
    for k in 0..300 {
        s.insert((k * 37) % 101);
        assert!(s.level() >= last);
        assert!(s.level() < MAX_LEVEL);
        last = s.level();
    }
}

#[test]
fn explicit_levels() {
    let mut s = SkipList::new();
    s.insert_at_level(5, 3);
    assert_eq!(s.level(), 3);
    s.insert_at_level(7, 1);
    assert_eq!(s.level(), 3);
    s.insert_at_level(6, MAX_LEVEL - 1);
    assert_eq!(s.level(), MAX_LEVEL - 1);
    s.insert_at_level(5, 0);
    assert_eq!(s.to_vec(), vec![5, 6, 7]);
    assert!(s.search(6));
    assert!(!s.search(4));
}

#[test]
fn duplicate_does_not_raise_level() {
    let mut s = SkipList::new();
    s.insert_at_level(10, 0);
    s.insert_at_level(10, 8);
    assert_eq!(s.level(), 0);
    assert_eq!(s.to_vec(), vec![10]);
}

#[test]
fn extreme_values() {
    let s = build(&[i32::MAX, -1, i32::MIN, 0]);
    assert_eq!(s.to_vec(), vec![i32::MIN, -1, 0, i32::MAX]);
    assert!(s.search(-1));
    assert!(s.search(i32::MIN));
    assert!(s.search(i32::MAX));
    assert!(!s.search(1));
}

#[test]
fn descending_inserts() {
    let values: Vec<i32> = (0..100).rev().collect();
    let s = build(&values);
    assert_eq!(s.to_vec(), (0..100).collect::<Vec<i32>>());
}

#[test]
fn levels_stay_below_bound_and_halve() {
    let draws = 40000;
    let mut at_least = vec![0usize; MAX_LEVEL];
    for _ in 0..draws {
        let l = random_level();
        assert!(l < MAX_LEVEL);
        for k in 0..=l {
            at_least[k] += 1;
        }
    }
    assert_eq!(at_least[0], draws);
    for k in 1..4 {
        let fraction = at_least[k] as f64 / draws as f64;
        let expected = 0.5f64.powi(k as i32);
        assert!((fraction - expected).abs() < 0.03, "level {}: {}", k, fraction);
    }
}

#[test]
fn many_inserts_keep_levels_bounded() {
    let mut s = SkipList::new();
    for k in 0..(MAX_LEVEL as i32 * 200) {
        s.insert(k);
    }
    assert!(s.level() < MAX_LEVEL);
    assert_eq!(s.to_vec().len(), MAX_LEVEL * 200);
}

#[test]
fn next_level_steps() {
    assert_eq!(next_level(0, true), Some(1));
    assert_eq!(next_level(0, false), None);
    assert_eq!(next_level(7, true), Some(8));
    assert_eq!(next_level(MAX_LEVEL - 2, true), Some(MAX_LEVEL - 1));
    assert_eq!(next_level(MAX_LEVEL - 1, true), None);
    assert_eq!(next_level(MAX_LEVEL - 1, false), None);
}

#[test]
fn all_heads_stop_at_cap() {
    let mut lvl = 0usize;
    let mut steps = 0usize;
    while let Some(next) = next_level(lvl, true) {
        lvl = next;
        steps += 1;
    }
    assert_eq!(lvl, MAX_LEVEL - 1);
    assert_eq!(steps, MAX_LEVEL - 1);
}
