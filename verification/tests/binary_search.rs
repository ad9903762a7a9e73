use algolib::binary_search::lower_bound::LowerBound;
use algolib::binary_search::upper_bound::UpperBound;

#[test]
fn test_lower_bound() {
    let a = [1, 2, 3, 4, 5, 6, 7, 8, 9];
    assert_eq!(a.lower_bound(&0), Err(0));
    assert_eq!(a.lower_bound(&1), Ok(0));
    assert_eq!(a.lower_bound(&2), Ok(1));
    assert_eq!(a.lower_bound(&3), Ok(2));
    assert_eq!(a.lower_bound(&4), Ok(3));
    assert_eq!(a.lower_bound(&5), Ok(4));
    assert_eq!(a.lower_bound(&6), Ok(5));
    assert_eq!(a.lower_bound(&7), Ok(6));
    assert_eq!(a.lower_bound(&8), Ok(7));
    assert_eq!(a.lower_bound(&9), Ok(8));
    assert_eq!(a.lower_bound(&10), Err(9));
}

#[test]
fn main_test_lower_bound() {
    let a = [1, 2, 3, 4, 5, 6, 7, 8, 9];
    assert_eq!(a.lower_bound(&0), Err(0));
    assert_eq!(a.lower_bound(&1), Ok(0));
    assert_eq!(a.lower_bound(&2), Ok(1));
    assert_eq!(a.lower_bound(&3), Ok(2));
    assert_eq!(a.lower_bound(&4), Ok(3));
    assert_eq!(a.lower_bound(&5), Ok(4));
    assert_eq!(a.lower_bound(&6), Ok(5));
    assert_eq!(a.lower_bound(&7), Ok(6));
    assert_eq!(a.lower_bound(&8), Ok(7));
    assert_eq!(a.lower_bound(&9), Ok(8));
    assert_eq!(a.lower_bound(&10), Err(9));
}

#[test]
fn test_higher_bound() {
    let a = [1, 2, 3, 4, 5, 6, 7, 8, 9];
    assert_eq!(a.upper_bound(&0), Err(0));
    assert_eq!(a.upper_bound(&1), Err(1));
    assert_eq!(a.upper_bound(&2), Err(2));
    assert_eq!(a.upper_bound(&3), Err(3));
    assert_eq!(a.upper_bound(&4), Err(4));
    assert_eq!(a.upper_bound(&5), Err(5));
    assert_eq!(a.upper_bound(&6), Err(6));
    assert_eq!(a.upper_bound(&7), Err(7));
    assert_eq!(a.upper_bound(&8), Err(8));
    assert_eq!(a.upper_bound(&9), Err(9));
    assert_eq!(a.upper_bound(&10), Err(9));
}

#[test]
fn main_test_higher_bound() {
    let a = [1, 2, 3, 4, 5, 6, 7, 8, 9];
    assert_eq!(a.upper_bound(&0), Err(0));
    assert_eq!(a.upper_bound(&1), Err(1));
    assert_eq!(a.upper_bound(&2), Err(2));
    assert_eq!(a.upper_bound(&3), Err(3));
    assert_eq!(a.upper_bound(&4), Err(4));
    assert_eq!(a.upper_bound(&5), Err(5));
    assert_eq!(a.upper_bound(&6), Err(6));
    assert_eq!(a.upper_bound(&7), Err(7));
    assert_eq!(a.upper_bound(&8), Err(8));
    assert_eq!(a.upper_bound(&9), Err(9));
    assert_eq!(a.upper_bound(&10), Err(9));
}

fn sorted_sample(seed: &mut u64, max_len: usize) -> Vec<i32> {
    let mut next = || {
        *seed ^= *seed << 13;
        *seed ^= *seed >> 7;
        *seed ^= *seed << 17;
        *seed
    };
    let len = 1 + (next() % max_len as u64) as usize;
    let mut a: Vec<i32> = (0..len).map(|_| (next() % 101) as i32).collect();
    a.sort();
    a
}

fn lower_bound_prop(a: Vec<i32>, x: i32) {
    let mut a = a;
    a.sort();
    let result = a.lower_bound(&x);
    let first_greater_or_equal_index: usize = (|| {
        for i in 0..a.len() {
            if a[i] >= x {
                return i;
            }
        }
        a.len()
    })();
    match result {
        Ok(i) => assert_eq!(i, first_greater_or_equal_index),
        Err(i) => assert_eq!(i, first_greater_or_equal_index),
    }
    assert_eq!(result.is_ok(), a.contains(&x));
}

fn higher_bound_prop(a: Vec<i32>, x: i32) {
    let mut a = a;
    a.sort();
    let result = a.upper_bound(&x);
    let first_greater_index: usize = (|| {
        for i in 0..a.len() {
            if a[i] > x {
                return i;
            }
        }
        a.len()
    })();
    assert_eq!(result, Err(first_greater_index));
}

#[test]
fn lower_bound_is_the_first_index_not_less() {
    let mut seed: u64 = 0x9e37_79b9_7f4a_7c15;
    for _ in 0..400 {
        let a = sorted_sample(&mut seed, 200);
        for x in -1..=101 {
            lower_bound_prop(a.clone(), x);
        }
    }
}

#[test]
fn upper_bound_is_the_first_index_greater() {
    let mut seed: u64 = 0x2545_f491_4f6c_dd1d;
    for _ in 0..400 {
        let a = sorted_sample(&mut seed, 20);
        for x in -1..=101 {
            higher_bound_prop(a.clone(), x);
        }
    }
}

#[test]
fn bounds_of_an_empty_slice() {
    let a: [i32; 0] = [];
    assert_eq!(a.lower_bound(&5), Err(0));
    assert_eq!(a.upper_bound(&5), Err(0));
}

#[test]
fn bounds_among_repeated_elements() {
    let a = [1, 2, 2, 2, 3, 3, 7];
    assert_eq!(a.lower_bound(&2), Ok(1));
    assert_eq!(a.upper_bound(&2), Err(4));
    assert_eq!(a.lower_bound(&3), Ok(4));
    assert_eq!(a.upper_bound(&3), Err(6));
    assert_eq!(a.lower_bound(&5), Err(6));
    assert_eq!(a.upper_bound(&5), Err(6));
    assert_eq!(a.lower_bound(&7), Ok(6));
    assert_eq!(a.upper_bound(&7), Err(7));
}

#[test]
fn bounds_on_vectors_and_strings() {
    let v: Vec<u64> = vec![10, 20, 30];
    assert_eq!(v.lower_bound(&20), Ok(1));
    assert_eq!(v.upper_bound(&20), Err(2));
    let words = ["apple".to_string(), "melon".to_string(), "pear".to_string()];
    assert_eq!(words.lower_bound(&"melon".to_string()), Ok(1));
    assert_eq!(words.lower_bound(&"banana".to_string()), Err(1));
    assert_eq!(words.upper_bound(&"pear".to_string()), Err(3));
}
