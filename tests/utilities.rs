use cep_codec::arc_mutex::ArcMutex;
use cep_codec::errors::UnwrapPrint;
use cep_codec::group::{group_sum_by, is_odd, sum_number_by_group, Agrupator, KeyValue, ObjectMap};
use cep_codec::models::Pagination;

#[test]
fn sums_numbers_by_parity() {
    let numbers = vec![1, 2, 3, 4];
    let result = group_sum_by(numbers, &is_odd, |n, mut m: ObjectMap<i32>, g| {
        sum_number_by_group(n, &mut m, g);
        m
    });
    assert_eq!(result.len(), 2);
    assert_eq!(result.get(&KeyValue::Number(1)), Some(&4));
    assert_eq!(result.get(&KeyValue::Number(0)), Some(&6));
}

#[test]
fn summing_in_place_matches_the_fold() {
    let mut result: ObjectMap<i32> = ObjectMap::new();
    for n in [1, 2, 3, 4] {
        sum_number_by_group(n, &mut result, &is_odd);
    }
    assert_eq!(result.get(&KeyValue::Number(1)), Some(&4));
    assert_eq!(result.get(&KeyValue::Number(0)), Some(&6));
    let keys: Vec<KeyValue> = result.entries().iter().map(|e| e.0.clone()).collect();
    assert_eq!(keys, vec![KeyValue::Number(1), KeyValue::Number(0)]);
}

#[test]
fn a_key_as_grouping_puts_everything_together() {
    let key = KeyValue::String(String::from("all"));
    assert_eq!(key.get_group_key(7), KeyValue::String(String::from("all")));
    let result = group_sum_by(vec![5, -2, 10], &key, |n, mut m: ObjectMap<i32>, g| {
        sum_number_by_group(n, &mut m, g);
        m
    });
    assert_eq!(result.len(), 1);
    assert_eq!(result.get(&KeyValue::String(String::from("all"))), Some(&13));
    assert_eq!(result.get(&KeyValue::Number(0)), None);
}

#[test]
fn empty_input_gives_empty_groups() {
    let result = group_sum_by(Vec::new(), &is_odd, |n, mut m: ObjectMap<i32>, g| {
        sum_number_by_group(n, &mut m, g);
        m
    });
    assert_eq!(result.len(), 0);
}

#[test]
fn sums_wrap_on_overflow() {
    let mut result: ObjectMap<i32> = ObjectMap::new();
    sum_number_by_group(i32::MAX, &mut result, &is_odd);
    sum_number_by_group(2, &mut result, &KeyValue::Number(1));
    assert_eq!(result.get(&KeyValue::Number(1)), Some(&(i32::MIN + 1)));
}

#[test]
fn parity_of_negative_numbers() {
    assert_eq!(is_odd(-3), KeyValue::Number(1));
    assert_eq!(is_odd(-4), KeyValue::Number(0));
    assert_eq!(is_odd(0), KeyValue::Number(0));
}

#[test]
fn object_map_replaces_values() {
    let mut m: ObjectMap<i32> = ObjectMap::new();
    m.insert(KeyValue::String(String::from("a")), 1);
    m.insert(KeyValue::Number(1), 2);
    m.insert(KeyValue::String(String::from("a")), 3);
    assert_eq!(m.len(), 2);
    assert_eq!(m.get(&KeyValue::String(String::from("a"))), Some(&3));
    assert!(KeyValue::Number(1).same_key(&KeyValue::Number(1)));
    assert!(!KeyValue::Number(1).same_key(&KeyValue::String(String::from("1"))));
}

#[test]
fn handles_share_one_value() {
    let a = ArcMutex::new(1);
    let b = a.clone();
    let c = a.clone();
    match a.try_lock() {
        Ok(mut x) => *x = 2,
        Err(_) => panic!("lock failed"),
    }
    assert_eq!(*b.try_lock().unwrap(), 2);
    let held = b.try_lock().unwrap();
    assert!(c.try_lock().is_err());
    drop(held);
    assert_eq!(*c.try_lock().unwrap(), 2);
}

#[test]
fn default_pagination_is_first_page_of_ten() {
    let p = Pagination::default();
    assert_eq!(p.size, Some(10));
    assert_eq!(p.page, Some(0));
    assert_eq!(p.limit_and_offset(), Some((10, 0)));
}

#[test]
fn pagination_offset_is_size_times_page() {
    assert_eq!(Pagination { size: Some(25), page: Some(3) }.limit_and_offset(), Some((25, 75)));
    assert_eq!(Pagination { size: None, page: Some(4) }.limit_and_offset(), Some((10, 40)));
    assert_eq!(Pagination { size: Some(5), page: None }.limit_and_offset(), Some((5, 0)));
    assert_eq!(Pagination { size: Some(2), page: Some(i64::MAX) }.limit_and_offset(), None);
}

#[test]
fn unwrap_print_takes_the_value() {
    let r: Result<i32, String> = Ok(5);
    assert_eq!(r.unwrap_print(), 5);
}
