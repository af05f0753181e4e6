use ac_lib::structure::{FenwickTree, SegmentTree};

#[test]
fn test_segtree_new() {
    let arr = vec![1, 3, 5, 7, 9];
    let segtree = SegmentTree::new(&arr);

    for i in 0..arr.len() {
        assert_eq!(segtree.get(i), arr[i]);
    }
}

#[test]
fn test_segtree_query_full_range() {
    let arr = vec![1, 3, 5, 7, 9];
    let segtree = SegmentTree::new(&arr);

    assert_eq!(segtree.query(0, 5), 25);
}

#[test]
fn test_segtree_query_partial_range() {
    let arr = vec![1, 3, 5, 7, 9];
    let segtree = SegmentTree::new(&arr);

    assert_eq!(segtree.query(1, 4), 15);
    assert_eq!(segtree.query(0, 3), 9);
    assert_eq!(segtree.query(2, 5), 21);
}

#[test]
fn test_segtree_query_single_element() {
    let arr = vec![1, 3, 5, 7, 9];
    let segtree = SegmentTree::new(&arr);

    assert_eq!(segtree.query(2, 3), 5);
    assert_eq!(segtree.query(0, 1), 1);
    assert_eq!(segtree.query(4, 5), 9);
}

#[test]
fn test_segtree_update() {
    let arr = vec![1, 3, 5, 7, 9];
    let mut segtree = SegmentTree::new(&arr);

    segtree.update(2, 10);
    assert_eq!(segtree.get(2), 10);
    assert_eq!(segtree.query(0, 5), 30);
    assert_eq!(segtree.query(1, 4), 20);
}

#[test]
fn test_segtree_multiple_updates() {
    let arr = vec![1, 2, 3, 4, 5];
    let mut segtree = SegmentTree::new(&arr);

    segtree.update(0, 10);
    segtree.update(4, 50);

    assert_eq!(segtree.query(0, 5), 69);
}

#[test]
fn test_segtree_empty_range() {
    let arr = vec![1, 3, 5, 7, 9];
    let segtree = SegmentTree::new(&arr);

    assert_eq!(segtree.query(2, 2), 0);
}

#[test]
fn test_segtree_single_element_array() {
    let arr = vec![42];
    let mut segtree = SegmentTree::new(&arr);

    assert_eq!(segtree.query(0, 1), 42);
    segtree.update(0, 100);
    assert_eq!(segtree.query(0, 1), 100);
}



#[test]
fn test_fenwick_new() {
    let ft = FenwickTree::new(5);

    for i in 0..5 {
        assert_eq!(ft.get(i), 0);
    }
}

#[test]
fn test_fenwick_from_vec() {
    let arr = vec![1, 3, 5, 7, 9];
    let ft = FenwickTree::from_vec(&arr);

    for i in 0..arr.len() {
        assert_eq!(ft.get(i), arr[i]);
    }
}

#[test]
fn test_fenwick_add() {
    let mut ft = FenwickTree::new(5);

    ft.add(0, 3);
    ft.add(1, 5);
    ft.add(2, 2);

    assert_eq!(ft.get(0), 3);
    assert_eq!(ft.get(1), 5);
    assert_eq!(ft.get(2), 2);
}

#[test]
fn test_fenwick_sum() {
    let arr = vec![1, 3, 5, 7, 9];
    let ft = FenwickTree::from_vec(&arr);

    assert_eq!(ft.sum(0), 1);
    assert_eq!(ft.sum(1), 4);
    assert_eq!(ft.sum(2), 9);
    assert_eq!(ft.sum(3), 16);
    assert_eq!(ft.sum(4), 25);
}

#[test]
fn test_fenwick_range_sum() {
    let arr = vec![1, 3, 5, 7, 9];
    let ft = FenwickTree::from_vec(&arr);

    assert_eq!(ft.range_sum(0, 4), 25);
    assert_eq!(ft.range_sum(1, 3), 15);
    assert_eq!(ft.range_sum(2, 2), 5);
    assert_eq!(ft.range_sum(0, 2), 9);
}

#[test]
fn test_fenwick_set() {
    let arr = vec![1, 3, 5, 7, 9];
    let mut ft = FenwickTree::from_vec(&arr);

    ft.set(2, 10);
    assert_eq!(ft.get(2), 10);
    assert_eq!(ft.sum(4), 30);
}

#[test]
fn test_fenwick_multiple_operations() {
    let mut ft = FenwickTree::new(5);

    ft.add(0, 1);
    ft.add(1, 2);
    ft.add(2, 3);
    ft.add(3, 4);
    ft.add(4, 5);

    assert_eq!(ft.range_sum(0, 4), 15);

    ft.set(2, 10);
    assert_eq!(ft.range_sum(0, 4), 22);

    ft.add(1, 5);
    assert_eq!(ft.range_sum(0, 4), 27);
}

#[test]
fn test_fenwick_add_negative() {
    let mut ft = FenwickTree::new(5);

    ft.add(0, 10);
    ft.add(0, -5);

    assert_eq!(ft.get(0), 5);
}

#[test]
fn test_fenwick_single_element() {
    let mut ft = FenwickTree::new(1);

    ft.add(0, 42);
    assert_eq!(ft.sum(0), 42);
    assert_eq!(ft.get(0), 42);
}



#[test]
fn test_segtree_vs_fenwick_consistency() {
    let arr = vec![1, 3, 5, 7, 9];

    let segtree = SegmentTree::new(&arr);
    let ft = FenwickTree::from_vec(&arr);

    assert_eq!(segtree.query(0, 5), ft.sum(4));
    assert_eq!(segtree.query(1, 4), ft.range_sum(1, 3));
    assert_eq!(segtree.query(2, 3), ft.range_sum(2, 2));
}

#[test]
fn test_large_array() {
    let arr: Vec<i64> = (1..=1000).collect();

    let segtree = SegmentTree::new(&arr);
    let ft = FenwickTree::from_vec(&arr);

    assert_eq!(segtree.query(0, 1000), 500500);
    assert_eq!(ft.sum(999), 500500);
}

#[test]
fn segtree_and_fenwick_odd_numbers_scenario() {
    let arr = vec![1, 3, 5, 7, 9];
    let mut segtree = SegmentTree::new(&arr);
    assert_eq!(segtree.query(0, 5), 25);
    assert_eq!(segtree.query(1, 4), 15);
    segtree.update(2, 10);
    assert_eq!(segtree.query(0, 5), 30);
    assert_eq!(segtree.get(2), 10);

    let mut ft = FenwickTree::from_vec(&arr);
    assert_eq!(ft.sum(4), 25);
    assert_eq!(ft.range_sum(1, 3), 15);
    ft.set(2, 10);
    assert_eq!(ft.sum(4), 30);
}

#[test]
fn segtree_update_changes_only_ranges_holding_the_index() {
    let arr = vec![1, 3, 5, 7, 9];
    let mut segtree = SegmentTree::new(&arr);
    segtree.update(2, 10);
    assert_eq!(segtree.query(0, 2), 4);
    assert_eq!(segtree.query(3, 5), 16);
    assert_eq!(segtree.query(2, 3), 10);
    assert_eq!(segtree.query(1, 4), 20);
    assert_eq!(segtree.get(1), 3);
    assert_eq!(segtree.get(3), 7);
}

#[test]
fn fenwick_set_changes_only_ranges_holding_the_index() {
    let arr = vec![1, 3, 5, 7, 9];
    let mut ft = FenwickTree::from_vec(&arr);
    ft.set(2, 10);
    assert_eq!(ft.range_sum(0, 1), 4);
    assert_eq!(ft.range_sum(3, 4), 16);
    assert_eq!(ft.range_sum(1, 3), 20);
    assert_eq!(ft.get(2), 10);
    assert_eq!(ft.get(3), 7);
}

#[test]
fn segtree_every_empty_range_is_zero() {
    let arr = vec![4, -2, 8, 1, 6, 3];
    let segtree = SegmentTree::new(&arr);
    for i in 0..=arr.len() {
        assert_eq!(segtree.query(i, i), 0);
    }
}

#[test]
fn segtree_all_ranges_match_literal_sums() {
    let arr: Vec<i64> = vec![5, -3, 12, 0, -7, 9, 2];
    let segtree = SegmentTree::new(&arr);
    for l in 0..=arr.len() {
        for r in l..=arr.len() {
            let expected: i64 = arr[l..r].iter().sum();
            assert_eq!(segtree.query(l, r), expected);
        }
    }
}

#[test]
fn fenwick_all_ranges_match_literal_sums() {
    let arr: Vec<i64> = vec![5, -3, 12, 0, -7, 9, 2];
    let ft = FenwickTree::from_vec(&arr);
    for l in 0..arr.len() {
        for r in l..arr.len() {
            let expected: i64 = arr[l..=r].iter().sum();
            assert_eq!(ft.range_sum(l, r), expected);
        }
    }
}

#[test]
fn fenwick_sum_past_the_end_reads_the_last_index() {
    let arr = vec![1, 3, 5, 7, 9];
    let ft = FenwickTree::from_vec(&arr);
    assert_eq!(ft.sum(5), 25);
    assert_eq!(ft.sum(100), 25);
}

#[test]
fn structures_agree_on_the_total() {
    let arr: Vec<i64> = vec![-4, 11, 6, -1, 0, 2, 7, 3, 9];
    let segtree = SegmentTree::new(&arr);
    let ft = FenwickTree::from_vec(&arr);
    let total: i64 = arr.iter().sum();
    assert_eq!(segtree.query(0, arr.len()), total);
    assert_eq!(ft.sum(arr.len() - 1), total);
}

#[test]
fn segtree_power_of_two_length() {
    let arr = vec![2, 4, 6, 8];
    let mut segtree = SegmentTree::new(&arr);
    assert_eq!(segtree.query(0, 4), 20);
    segtree.update(3, -8);
    assert_eq!(segtree.query(0, 4), 4);
    assert_eq!(segtree.query(2, 4), -2);
}

#[test]
fn segtree_empty_input() {
    let arr: Vec<i64> = Vec::new();
    let segtree = SegmentTree::new(&arr);
    assert_eq!(segtree.query(0, 0), 0);
}

#[test]
fn fenwick_extreme_values() {
    let arr = vec![i64::MAX, 0, i64::MIN];
    let ft = FenwickTree::from_vec(&arr);
    assert_eq!(ft.get(0), i64::MAX);
    assert_eq!(ft.get(2), i64::MIN);
    assert_eq!(ft.sum(2), -1);
}

#[test]
fn segtree_extreme_values() {
    let arr = vec![i64::MAX, 0, i64::MIN];
    let segtree = SegmentTree::new(&arr);
    assert_eq!(segtree.get(0), i64::MAX);
    assert_eq!(segtree.query(0, 3), -1);
    assert_eq!(segtree.query(1, 3), i64::MIN);
}
