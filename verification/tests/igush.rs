// The original unit tests of the container, exercised through the public
// surface: construction, end operations, indexed access, arbitrary insertion
// and removal, equality and export.

use igush_rs::Igush;

fn to_std_vec(a: &Igush<i32>) -> Vec<i32> {
    let mut out = Vec::new();
    let mut i = 0;
    while i < a.len() {
        out.push(*a.get(i).unwrap());
        i += 1;
    }
    out
}

fn can_send<T: Send>(_: T) {}

#[test]
fn create() {
    let created: Igush<i32> = Igush::with_capacity(32, 0);

    assert_eq!(created.capacity(), 0);
    assert_eq!(created.len(), 0);

    let created: Igush<i32> = Igush::with_capacity(5, 5);

    assert_eq!(created.capacity(), 5);
    assert_eq!(created.len(), 0);

    let created: Igush<i32> = Igush::with_capacity(10, 11);

    assert_eq!(created.capacity(), 11);
    assert_eq!(created.len(), 0);
}

#[test]
fn push_back() {
    let mut array: Igush<i32> = Igush::new(5);

    for i in 0..20 {
        array.push_back(i);
    }

    assert_eq!(array.len(), 20);
    assert_eq!(
        to_std_vec(&array),
        vec![0, 1, 2, 3, 4, 5, 6, 7, 8, 9, 10, 11, 12, 13, 14, 15, 16, 17, 18, 19]
    );
}

#[test]
fn push_front() {
    let mut array: Igush<i32> = Igush::new(5);

    for i in 0..20 {
        array.push_front(i);
    }

    assert_eq!(array.len(), 20);
    assert_eq!(
        to_std_vec(&array),
        vec![19, 18, 17, 16, 15, 14, 13, 12, 11, 10, 9, 8, 7, 6, 5, 4, 3, 2, 1, 0]
    );
}

#[test]
fn get() {
    let mut array: Igush<i32> = Igush::new(5);
    array.extend_back((0..20).collect());

    assert_eq!(array.get(0), Some(&0));
    assert_eq!(array.get(5), Some(&5));
    assert_eq!(array.get(19), Some(&19));
    assert_eq!(array.get(20), None);
}

#[test]
fn get_mut() {
    let mut array: Igush<i32> = Igush::new(5);
    array.extend_back((0..20).collect());

    assert_eq!(array.get_mut(0), Some(&mut 0));
    assert_eq!(array.get_mut(5), Some(&mut 5));
    assert_eq!(array.get_mut(19), Some(&mut 19));
    assert_eq!(array.get_mut(20), None);

    let x = array.get_mut(0).unwrap();
    *x = 22;

    assert_eq!(array.get_mut(0), Some(&mut 22));
}

#[test]
fn insert() {
    let mut array: Igush<i32> = Igush::new(5);
    array.extend_back((0..4).collect());

    for i in (102..112).rev() {
        array.insert(2, i);
    }

    assert_eq!(
        to_std_vec(&array),
        vec![0, 1, 102, 103, 104, 105, 106, 107, 108, 109, 110, 111, 2, 3]
    );

    array.insert(0, 7);

    assert_eq!(array.get(0), Some(&7));

    array.insert(array.len(), 8);

    assert_eq!(array.get(array.len() - 1), Some(&8));
}

#[test]
fn pop_back() {
    let mut array: Igush<i32> = Igush::new(5);

    assert_eq!(array.pop_back(), None);

    array.extend_back((0..20).collect());
    assert_eq!(array.len(), 20);

    assert_eq!(array.pop_back(), Some(19));
    assert_eq!(array.pop_back(), Some(18));
    assert_eq!(array.pop_back(), Some(17));
    assert_eq!(array.pop_back(), Some(16));
    assert_eq!(array.pop_back(), Some(15));
    assert_eq!(array.pop_back(), Some(14));
    assert_eq!(array.pop_back(), Some(13));

    assert_eq!(to_std_vec(&array), vec![0, 1, 2, 3, 4, 5, 6, 7, 8, 9, 10, 11, 12]);
}

#[test]
fn pop_front() {
    let mut array: Igush<i32> = Igush::new(5);

    assert_eq!(array.pop_front(), None);

    array.extend_back((0..20).collect());
    assert_eq!(array.len(), 20);

    assert_eq!(array.pop_front(), Some(0));
    assert_eq!(array.pop_front(), Some(1));
    assert_eq!(array.pop_front(), Some(2));
    assert_eq!(array.pop_front(), Some(3));
    assert_eq!(array.pop_front(), Some(4));
    assert_eq!(array.pop_front(), Some(5));

    assert_eq!(
        to_std_vec(&array),
        vec![6, 7, 8, 9, 10, 11, 12, 13, 14, 15, 16, 17, 18, 19]
    );
}

#[test]
fn remove() {
    let mut array: Igush<i32> = Igush::new(5);

    assert_eq!(array.remove(0), None);

    array.extend_back((0..20).collect());
    assert_eq!(array.len(), 20);

    assert_eq!(array.remove(10), Some(10));

    assert_eq!(
        to_std_vec(&array),
        vec![0, 1, 2, 3, 4, 5, 6, 7, 8, 9, 11, 12, 13, 14, 15, 16, 17, 18, 19]
    );

    assert_eq!(array.remove(18), Some(19));
    assert_eq!(array.remove(0), Some(0));
    assert_eq!(array.remove(20), None);

    assert_eq!(
        to_std_vec(&array),
        vec![1, 2, 3, 4, 5, 6, 7, 8, 9, 11, 12, 13, 14, 15, 16, 17, 18]
    );

    let mut vec: Igush<i32> = Igush::from(vec![0; 200]);

    for x in 0..100 {
        let elem = vec.remove(x);
        assert!(elem.is_some());
    }

    assert_eq!(vec.len(), 100);

    for x in (0..100).rev() {
        let elem = vec.remove(x);
        assert!(elem.is_some());
    }

    assert!(vec.is_empty());

    let n = 100;
    let mut vec: Igush<i32> = Igush::from(vec![0; n]);

    for x in (0..n - 1).rev() {
        vec.remove(x);
    }
}

#[test]
fn equal() {
    let mut a: Igush<i32> = Igush::new(5);
    let mut b: Igush<i32> = Igush::with_capacity(32, 0);

    a.extend_back((0..20).collect());
    b.extend_front((0..20).rev().collect());

    assert!(a == b);

    let s = vec![
        0, 1, 2, 3, 4, 5, 6, 7, 8, 9, 10, 11, 12, 13, 14, 15, 16, 17, 18, 19,
    ];
    assert_eq!(to_std_vec(&a), s);
    assert_eq!(to_std_vec(&b), s);
}

#[test]
fn into_vec() {
    let mut array: Igush<i32> = Igush::new(5);

    for i in 0..7 {
        array.push_back(i);
    }
    for i in (7..15).rev() {
        array.push_front(i);
    }

    let v: Vec<i32> = array.into_vec();
    assert_eq!(v, vec![7, 8, 9, 10, 11, 12, 13, 14, 0, 1, 2, 3, 4, 5, 6]);
}

#[test]
fn sendable() {
    let array: Igush<i32> = Igush::new(5);
    can_send(array);
}

#[test]
#[should_panic]
fn out_of_bounds_insert() {
    let mut array: Igush<i32> = Igush::new(5);

    array.insert(1, 3);
}
