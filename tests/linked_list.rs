use libps::add;
use libps::linked_list::{join_texts, LinkedList};
use std::cell::Cell;
use std::rc::Rc;

#[test]
fn insert_at_head_works() {
    let mut list = LinkedList::<i32>::new();
    let second_value = 2;
    list.insert_at_head(1);
    list.insert_at_head(second_value);
    println!("Linked List is {}", list.to_string());
    match list.get(0) {
        Some(val) => assert_eq!(*val, second_value),
        None => panic!("Expected to find {} at index 0", second_value),
    }
}

#[test]
fn delete_head_works() {
    let mut list = LinkedList::<i32>::new();
    let first_value = 1;
    let second_value = 2;
    list.insert_at_head(second_value);
    list.insert_at_head(first_value);
    match list.delete_head() {
        Some(val) => assert_eq!(val, 1),
        None => panic!("Expected to remove {} at head", first_value),
    }

    println!("Linked List is {}", list.to_string());
    match list.get(0) {
        Some(val) => assert_eq!(*val, second_value),
        None => panic!("Expected to find {} at index 0", second_value),
    }
}

#[test]
fn scenario_two_inserts_read_and_render() {
    let mut list = LinkedList::<i32>::new();
    list.insert_at_head(1);
    list.insert_at_head(2);
    assert_eq!(list.get(0), Some(&2));
    assert_eq!(list.get(1), Some(&1));
    assert_eq!(list.get(2), None);
    assert_eq!(list.to_string(), "2, 1");
}

#[test]
fn scenario_delete_then_read_and_render() {
    let mut list = LinkedList::<i32>::new();
    list.insert_at_head(2);
    list.insert_at_head(1);
    assert_eq!(list.delete_head(), Some(1));
    assert_eq!(list.get(0), Some(&2));
    assert_eq!(list.get(1), None);
    assert_eq!(list.to_string(), "2");
}

#[test]
fn empty_list_gives_absence() {
    let mut list = LinkedList::<i32>::new();
    assert_eq!(list.get(0), None);
    assert_eq!(list.get(-1), None);
    assert_eq!(list.get(i32::MAX), None);
    assert_eq!(list.get(i32::MIN), None);
    assert_eq!(list.delete_head(), None);
    assert_eq!(list.to_string(), "");
}

#[test]
fn negative_and_large_indices_are_absent() {
    let mut list = LinkedList::<i32>::new();
    list.insert_at_head(7);
    list.insert_at_head(8);
    assert_eq!(list.get(-1), None);
    assert_eq!(list.get(-100), None);
    assert_eq!(list.get(2), None);
    assert_eq!(list.get(1000), None);
}

#[test]
fn head_inserts_come_back_reversed() {
    let mut list = LinkedList::<u64>::new();
    let values = [5u64, 9, 1, 4, 4, 0, 12];
    for v in values {
        list.insert_at_head(v);
    }
    for (i, v) in values.iter().rev().enumerate() {
        assert_eq!(list.get(i as i32), Some(v));
    }
    assert_eq!(list.get(values.len() as i32), None);
    assert_eq!(list.to_string(), "12, 0, 4, 4, 1, 9, 5");
}

#[test]
fn delete_then_insert_restores_list() {
    let mut list = LinkedList::<i32>::new();
    list.insert_at_head(3);
    list.insert_at_head(2);
    list.insert_at_head(1);
    let before = list.to_string();
    let v = list.delete_head().unwrap();
    list.insert_at_head(v);
    assert_eq!(list.to_string(), before);
    assert_eq!(list.get(0), Some(&1));
    assert_eq!(list.get(2), Some(&3));
    assert_eq!(list.get(3), None);
}

#[test]
fn drain_returns_reverse_insertion_order() {
    let mut list = LinkedList::<String>::new();
    let values = ["a", "b", "c", "d"];
    for v in values {
        list.insert_at_head(v.to_string());
    }
    for v in values.iter().rev() {
        assert_eq!(list.delete_head(), Some(v.to_string()));
    }
    assert_eq!(list.delete_head(), None);
    assert_eq!(list.get(0), None);
    assert_eq!(list.to_string(), "");
}

#[test]
fn mixed_operations_match_a_model() {
    let mut list = LinkedList::<u32>::new();
    let mut model: Vec<u32> = Vec::new();
    let mut seed: u32 = 12345;
    for step in 0..500u32 {
        seed = seed.wrapping_mul(1103515245).wrapping_add(12345);
        if (seed >> 16) % 3 == 0 {
            let expected = if model.is_empty() { None } else { Some(model.remove(0)) };
            assert_eq!(list.delete_head(), expected);
        } else {
            list.insert_at_head(step);
            model.insert(0, step);
        }
        for (i, v) in model.iter().enumerate() {
            assert_eq!(list.get(i as i32), Some(v));
        }
        assert_eq!(list.get(model.len() as i32), None);
    }
}

struct Counted {
    dropped: Rc<Cell<usize>>,
}

impl Drop for Counted {
    fn drop(&mut self) {
        self.dropped.set(self.dropped.get() + 1);
    }
}

#[test]
fn discarding_the_list_drops_each_value_once() {
    let dropped = Rc::new(Cell::new(0usize));
    let n = 1000;
    {
        let mut list = LinkedList::<Counted>::new();
        for _ in 0..n {
            list.insert_at_head(Counted { dropped: Rc::clone(&dropped) });
        }
        let removed = list.delete_head();
        assert!(removed.is_some());
        drop(removed);
        assert_eq!(dropped.get(), 1);
    }
    assert_eq!(dropped.get(), n);
}

#[test]
fn join_texts_separates_with_comma_space() {
    assert_eq!(join_texts(&vec![]), "");
    assert_eq!(join_texts(&vec!["x".to_string()]), "x");
    assert_eq!(
        join_texts(&vec!["1".to_string(), "".to_string(), "ab".to_string()]),
        "1, , ab"
    );
}

#[test]
fn add_sums() {
    assert_eq!(add(2, 2), 4);
    assert_eq!(add(0, usize::MAX), usize::MAX);
}

#[test]
fn default_list_is_empty() {
    let mut list: LinkedList<i32> = Default::default();
    assert_eq!(list.get(0), None);
    list.insert_at_head(4);
    assert_eq!(list.get(0), Some(&4));
    assert_eq!(list.to_string(), "4");
}
