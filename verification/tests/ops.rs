// Behavioral tests of the operation surface: round trips through flat
// vectors, agreement with a reference double-ended queue under arbitrary
// interleavings, boundary behavior on empty containers, and the bulk
// operations.

use std::collections::VecDeque;

use igush_rs::{util, Igush, VecCompat};

fn to_std_vec(a: &Igush<i32>) -> Vec<i32> {
    let mut out = Vec::new();
    let mut i = 0;
    while i < a.len() {
        out.push(*a.get(i).unwrap());
        i += 1;
    }
    out
}

#[test]
fn round_trip() {
    let mut a: Igush<i32> = Igush::new(5);
    for i in 0..13 {
        a.push_back(i);
    }
    for i in 13..20 {
        a.push_front(i);
    }
    a.insert(4, 77);

    let expect = to_std_vec(&a);
    let flat = a.into_vec();
    assert_eq!(flat, expect);

    // re-importing yields an element-wise identical container
    let b: Igush<i32> = Igush::from_vec(flat);
    assert_eq!(to_std_vec(&b), expect);

    // exporting twice produces the same flat sequence
    let c = b.clone();
    assert_eq!(b.into_vec(), c.into_vec());
}

#[test]
fn differential_against_deque() {
    let mut a: Igush<u32> = Igush::new(3);
    let mut d: VecDeque<u32> = VecDeque::new();

    let mut x: u32 = 1;
    for step in 0..400u32 {
        x = x.wrapping_mul(1103515245).wrapping_add(12345);
        let pick = x % 6;
        match pick {
            0 => {
                a.push_front(step);
                d.push_front(step);
            }
            1 => {
                a.push_back(step);
                d.push_back(step);
            }
            2 => {
                assert_eq!(a.pop_front(), d.pop_front());
            }
            3 => {
                assert_eq!(a.pop_back(), d.pop_back());
            }
            4 => {
                let at = if d.is_empty() { 0 } else { (x / 7) as usize % (d.len() + 1) };
                a.insert(at, step);
                d.insert(at, step);
            }
            _ => {
                let at = (x / 7) as usize % (d.len() + 2);
                if at < d.len() {
                    assert_eq!(a.remove(at), d.remove(at));
                } else {
                    assert_eq!(a.remove(at), None);
                }
            }
        }
        assert_eq!(a.len(), d.len());
        for i in 0..d.len() {
            assert_eq!(a.get(i), d.get(i));
        }
    }
}

#[test]
fn boundary_on_empty() {
    let mut a: Igush<i32> = Igush::new(4);

    assert_eq!(a.get(0), None);
    assert_eq!(a.remove(0), None);
    assert_eq!(a.pop_front(), None);
    assert_eq!(a.pop_back(), None);
    assert_eq!(a.front(), None);
    assert_eq!(a.back(), None);

    // insert at index == length is push_back
    a.insert(0, 10);
    a.insert(1, 11);
    a.insert(2, 12);
    assert_eq!(to_std_vec(&a), vec![10, 11, 12]);
}

#[test]
fn scenario_mixed_export() {
    // export, re-wrap, push one more at the front
    let mut a: Igush<i32> = Igush::new(5);
    for i in 0..20 {
        a.push_back(i);
    }
    let flat = a.into_vec();
    let mut b: Igush<i32> = Igush::from_vec(flat);
    b.push_front(-1);

    let mut expect = vec![-1];
    for i in 0..20 {
        expect.push(i);
    }
    assert_eq!(b.len(), 21);
    assert_eq!(to_std_vec(&b), expect);
}

#[test]
fn front_back_access() {
    let mut a: Igush<i32> = Igush::new(5);
    a.push_back(1);
    a.push_back(2);
    a.push_back(3);

    assert_eq!(a.front(), Some(&1));
    assert_eq!(a.back(), Some(&3));

    if let Some(x) = a.front_mut() {
        *x = 9;
    }
    if let Some(x) = a.back_mut() {
        *x = 7;
    }
    assert_eq!(to_std_vec(&a), vec![9, 2, 7]);
}

#[test]
fn swap_elements() {
    let mut a: Igush<i32> = Igush::new(2);
    for i in 0..7 {
        a.push_front(i);
    }
    // logical order: 6 5 4 3 2 1 0
    a.swap(0, 6);
    assert_eq!(to_std_vec(&a), vec![0, 5, 4, 3, 2, 1, 6]);
    a.swap(2, 2);
    assert_eq!(to_std_vec(&a), vec![0, 5, 4, 3, 2, 1, 6]);
}

#[test]
fn drain_range() {
    let mut a: Igush<i32> = Igush::new(4);
    for i in 0..10 {
        a.push_back(i);
    }
    let drained = a.drain(2, 6);
    assert_eq!(drained, vec![2, 3, 4, 5]);
    assert_eq!(to_std_vec(&a), vec![0, 1, 6, 7, 8, 9]);

    let all = a.drain(0, a.len());
    assert_eq!(all, vec![0, 1, 6, 7, 8, 9]);
    assert!(a.is_empty());
}

#[test]
fn split_and_append() {
    let mut a: Igush<i32> = Igush::new(3);
    for i in 0..10 {
        a.push_front(i);
    }
    // logical order: 9 8 ... 0
    let tail = a.split_off(4);
    assert_eq!(to_std_vec(&a), vec![9, 8, 7, 6]);
    assert_eq!(to_std_vec(&tail), vec![5, 4, 3, 2, 1, 0]);

    let mut b: Igush<i32> = Igush::from(vec![100, 101]);
    a.append(&mut b);
    assert_eq!(to_std_vec(&a), vec![9, 8, 7, 6, 100, 101]);
    assert!(b.is_empty());
}

#[test]
fn retain_keeps_matching() {
    let mut a: Igush<i32> = Igush::new(5);
    a.extend_back((1..5).collect());
    a.retain(|&x| x % 2 == 0);
    assert_eq!(to_std_vec(&a), vec![2, 4]);
}

#[test]
fn resize_and_truncate() {
    let mut a: Igush<i32> = Igush::new(5);
    a.push_back(5);
    a.push_back(10);
    a.push_back(15);

    a.resize(2, 0);
    assert_eq!(to_std_vec(&a), vec![5, 10]);

    a.resize(5, 20);
    assert_eq!(to_std_vec(&a), vec![5, 10, 20, 20, 20]);

    a.resize_with(7, || 1);
    assert_eq!(to_std_vec(&a), vec![5, 10, 20, 20, 20, 1, 1]);

    a.truncate(3);
    assert_eq!(to_std_vec(&a), vec![5, 10, 20]);
    a.truncate(9);
    assert_eq!(to_std_vec(&a), vec![5, 10, 20]);

    a.clear();
    assert!(a.is_empty());
}

#[test]
fn contains_element() {
    let mut v: Igush<u32> = Igush::new(5);

    v.push_back(0);
    v.push_back(1);

    assert_eq!(v.contains(&1), true);
    assert_eq!(v.contains(&10), false);
}

#[test]
fn iter_lists_in_order() {
    let mut a: Igush<i32> = Igush::new(2);
    for i in 0..5 {
        a.push_front(i);
    }
    let listed: Vec<i32> = a.iter().into_iter().map(|r| *r).collect();
    assert_eq!(listed, vec![4, 3, 2, 1, 0]);
}

#[test]
fn vec_compat_aliases() {
    let mut v: Igush<i32> = Igush::from(vec![10, 40, 30]);

    assert_eq!(VecCompat::first(&v), Some(&10));
    assert_eq!(VecCompat::last(&v), Some(&30));

    VecCompat::push(&mut v, 3);
    assert_eq!(to_std_vec(&v), vec![10, 40, 30, 3]);
    assert_eq!(VecCompat::pop(&mut v), Some(3));

    if let Some(x) = VecCompat::first_mut(&mut v) {
        *x = 5;
    }
    if let Some(x) = VecCompat::last_mut(&mut v) {
        *x = 6;
    }
    assert_eq!(to_std_vec(&v), vec![5, 40, 6]);
}

#[test]
fn reserve_and_shrink() {
    let mut a: Igush<i32> = Igush::from(vec![1]);
    a.reserve(10);
    assert!(a.capacity() >= 11);

    let mut b: Igush<i32> = Igush::from(vec![1]);
    b.reserve_exact(10);
    assert!(b.capacity() >= 11);

    let mut c: Igush<i32> = Igush::with_capacity(5, 15);
    c.extend_back((0..4).collect());
    assert_eq!(c.capacity(), 15);
    c.shrink_to_fit();
    assert!(c.capacity() >= 4);
    assert_eq!(to_std_vec(&c), vec![0, 1, 2, 3]);
}

#[test]
fn wide_container_round_trip() {
    // a container large enough that the automatic row width exceeds the
    // default: the square root of 2500 is 50
    let mut flat = Vec::new();
    for i in 0..2500 {
        flat.push(i);
    }
    let mut a: Igush<i32> = Igush::from(flat.clone());
    a.push_front(-1);
    assert_eq!(a.len(), 2501);
    assert_eq!(a.remove(1250), Some(1249));
    assert_eq!(*a.get(0).unwrap(), -1);
    assert_eq!(*a.get(1250).unwrap(), 1250);
    assert_eq!(a.len(), 2500);
}

#[test]
fn row_arithmetic() {
    assert_eq!(util::div_rem(17, 5), (3, 2));
    assert_eq!(util::div_rem(15, 5), (3, 0));

    assert_eq!(util::wrap_add(5, 0, -1), 4);
    assert_eq!(util::wrap_add(5, 4, 1), 0);
    assert_eq!(util::wrap_add(5, 2, 3), 0);
    assert_eq!(util::wrap_add(5, 2, -2), 0);
    assert_eq!(util::wrap_add(5, 1, -3), 3);

    let mut v = vec![7, 8, 9, 0, 1, 2, 3, 4, 5, 6];
    util::make_contiguous(&mut v, 0, 10, 3);
    assert_eq!(v, vec![0, 1, 2, 3, 4, 5, 6, 7, 8, 9]);

    let mut w = vec![4, 5, 6, 7, 8, 9, 0, 1, 2, 3];
    util::make_contiguous(&mut w, 0, 10, 6);
    assert_eq!(w, vec![0, 1, 2, 3, 4, 5, 6, 7, 8, 9]);

    let mut partial = vec![100, 2, 0, 1, 200];
    util::make_contiguous(&mut partial, 1, 4, 1);
    assert_eq!(partial, vec![100, 0, 1, 2, 200]);
}

#[test]
fn width_one_rows() {
    // every row holds a single element; all carries degenerate
    let mut a: Igush<i32> = Igush::new(1);
    for i in 0..6 {
        a.push_front(i);
        a.push_back(100 + i);
    }
    assert_eq!(
        to_std_vec(&a),
        vec![5, 4, 3, 2, 1, 0, 100, 101, 102, 103, 104, 105]
    );
    a.insert(3, 77);
    assert_eq!(a.remove(3), Some(77));
    assert_eq!(a.pop_front(), Some(5));
    assert_eq!(a.pop_back(), Some(105));
    assert_eq!(a.len(), 10);
}

#[test]
fn pop_across_row_boundaries() {
    // fill with front pushes so that rows carry non-zero splits, then pop
    // from the back across every row boundary
    let mut a: Igush<i32> = Igush::new(2);
    for i in 0..7 {
        a.push_front(i);
    }
    // logical order: 6 5 4 3 2 1 0
    for expect in [0, 1, 2, 3, 4, 5, 6] {
        assert_eq!(a.pop_back(), Some(expect));
    }
    assert_eq!(a.pop_back(), None);
}

#[test]
fn insert_last_column_of_full_row() {
    // insertion into the final column of a full row, which must land there
    // rather than at the row's front
    let mut a: Igush<i32> = Igush::new(5);
    for i in 0..10 {
        a.push_back(i);
    }
    a.insert(4, 50);
    assert_eq!(
        to_std_vec(&a),
        vec![0, 1, 2, 3, 50, 4, 5, 6, 7, 8, 9]
    );

    let mut b: Igush<i32> = Igush::new(5);
    for i in 0..11 {
        b.push_front(10 - i);
    }
    // logical order: 0 1 ... 10, with split rows
    b.insert(4, 50);
    assert_eq!(
        to_std_vec(&b),
        vec![0, 1, 2, 3, 50, 4, 5, 6, 7, 8, 9, 10]
    );
}

#[test]
fn split_off_boundaries() {
    let mut a: Igush<i32> = Igush::from(vec![1, 2, 3]);
    let tail = a.split_off(3);
    assert_eq!(to_std_vec(&a), vec![1, 2, 3]);
    assert!(tail.is_empty());

    let mut b: Igush<i32> = Igush::from(vec![1, 2, 3]);
    let tail = b.split_off(0);
    assert!(b.is_empty());
    assert_eq!(to_std_vec(&tail), vec![1, 2, 3]);
}

#[test]
fn slice_conversion() {
    let source = [3, 1, 4, 1, 5];
    let a: Igush<i32> = Igush::from(&source[..]);
    assert_eq!(to_std_vec(&a), vec![3, 1, 4, 1, 5]);
}
