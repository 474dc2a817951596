use dancelist::sorting::{insert_ascending, order_of_numbers, stable_order};
use dancelist::time::Instant;

fn at(seconds: i64, nanosecond: u32) -> Instant {
    Instant {
        seconds,
        nanosecond,
    }
}

#[test]
fn names_are_inserted_at_their_place() {
    let mut list: Vec<String> = vec![];
    for name in ["m", "a", "z", "m", "b", "", "a", "zz", "Z"] {
        insert_ascending(&mut list, name.to_string());
    }
    assert_eq!(list, vec!["", "Z", "a", "b", "m", "z", "zz"]);
}

#[test]
fn the_order_is_ascending() {
    let keys = vec![at(30, 0), at(10, 0), at(20, 0), at(-5, 7)];
    assert_eq!(stable_order(&keys), vec![3, 1, 2, 0]);
}

#[test]
fn equal_keys_keep_their_order() {
    let keys = vec![at(5, 1), at(1, 0), at(5, 1), at(1, 0), at(5, 0), at(5, 1)];
    assert_eq!(stable_order(&keys), vec![1, 3, 4, 0, 2, 5]);
}

#[test]
fn nanoseconds_break_ties_of_seconds() {
    let keys = vec![at(5, 2), at(5, 1), at(5, 3), at(4, 999_999_999)];
    assert_eq!(stable_order(&keys), vec![3, 1, 0, 2]);
}

#[test]
fn short_lists_are_ordered_too() {
    assert_eq!(stable_order(&vec![]), Vec::<usize>::new());
    assert_eq!(stable_order(&vec![at(1, 1)]), vec![0]);
    assert_eq!(stable_order(&vec![at(1, 1), at(1, 1)]), vec![0, 1]);
    assert_eq!(stable_order(&vec![at(2, 0), at(1, 0)]), vec![1, 0]);
}

#[test]
fn the_order_agrees_with_the_stable_sort_of_std() {
    let mut keys = vec![];
    let mut seed: u64 = 12345;
    for _ in 0..200 {
        seed = seed.wrapping_mul(6364136223846793005).wrapping_add(1442695040888963407);
        let seconds = ((seed >> 33) % 20) as i64 - 10;
        let nanosecond = ((seed >> 20) % 3) as u32;
        keys.push(at(seconds, nanosecond));
    }
    let mut expected: Vec<usize> = (0..keys.len()).collect();
    expected.sort_by_key(|&i| (keys[i].seconds, keys[i].nanosecond));
    assert_eq!(stable_order(&keys), expected);
}

#[test]
fn numbers_are_put_in_order() {
    assert_eq!(order_of_numbers(&vec![]), Vec::<usize>::new());
    assert_eq!(order_of_numbers(&vec![5]), vec![0]);
    assert_eq!(order_of_numbers(&vec![3, 1, 2]), vec![1, 2, 0]);
    assert_eq!(order_of_numbers(&vec![2, 1, 2, 1, 0]), vec![4, 1, 3, 0, 2]);
    assert_eq!(order_of_numbers(&vec![u32::MAX, 0, u32::MAX]), vec![1, 0, 2]);
}
