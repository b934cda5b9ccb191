use linkedlist::{LinkedList, LinkedListIter};

fn collect(mut it: LinkedListIter<'_, i32>) -> Vec<i32> {
    let mut out = Vec::new();
    while let Some(v) = it.next() {
        out.push(*v);
    }
    out
}

#[test]
fn push_back_iterates_in_push_order() {
    let mut list = LinkedList::new();
    list.push(1);
    list.push(2);
    list.push(3);
    assert_eq!(list.len(), 3);
    assert_eq!(collect(list.iter()), vec![1, 2, 3]);
}

#[test]
fn push_front_iterates_in_reverse_order() {
    let mut list = LinkedList::new();
    list.push_front(1);
    list.push_front(2);
    list.push_front(3);
    assert_eq!(collect(list.iter()), vec![3, 2, 1]);
}

#[test]
fn pop_on_empty_list_returns_none() {
    let mut list = LinkedList::<i32>::new();
    assert!(list.pop().is_none());
    assert_eq!(list.len(), 0);
    assert!(list.pop_front().is_none());
    assert_eq!(list.len(), 0);
    assert!(list.is_empty());
}

#[test]
fn push_then_pop_returns_value() {
    let mut list = LinkedList::new();
    list.push(10);
    let v = list.pop();
    assert_eq!(v.map(|r| *r), Some(10));
    assert_eq!(list.len(), 0);
    assert!(list.is_empty());
}

#[test]
fn push_then_pop_restores_length() {
    let mut list = LinkedList::new();
    list.push(4);
    list.push(5);
    list.push(6);
    assert_eq!(*list.pop().unwrap(), 6);
    assert_eq!(list.len(), 2);
    assert_eq!(collect(list.iter()), vec![4, 5]);
}

#[test]
fn round_trip_from_front_and_back() {
    let mut list = LinkedList::new();
    for v in 1..=5 {
        list.push(v);
    }
    let mut front = Vec::new();
    while let Some(v) = list.pop_front() {
        front.push(*v);
    }
    assert_eq!(front, vec![1, 2, 3, 4, 5]);
    for v in 1..=5 {
        list.push(v);
    }
    let mut back = Vec::new();
    while let Some(v) = list.pop() {
        back.push(*v);
    }
    assert_eq!(back, vec![5, 4, 3, 2, 1]);
    assert_eq!(list.len(), 0);
}

#[test]
fn interleaved_operations_keep_length_and_order() {
    let mut list = LinkedList::new();
    list.push(2);
    list.push_front(1);
    list.push(3);
    list.push_front(0);
    assert_eq!(*list.pop_front().unwrap(), 0);
    list.push(4);
    assert_eq!(*list.pop().unwrap(), 4);
    list.push_front(-1);
    assert_eq!(*list.pop().unwrap(), 3);
    list.push(5);
    assert_eq!(list.len(), 4);
    assert_eq!(collect(list.iter()), vec![-1, 1, 2, 5]);
    let mut drained = 0;
    while list.pop().is_some() {
        drained += 1;
    }
    assert_eq!(drained, 4);
}

#[test]
fn removal_from_the_middle_of_the_arena_keeps_links() {
    let mut list = LinkedList::new();
    for v in 0..6 {
        if v % 2 == 0 {
            list.push(v);
        } else {
            list.push_front(v);
        }
    }
    assert_eq!(collect(list.iter()), vec![5, 3, 1, 0, 2, 4]);
    assert_eq!(*list.pop_front().unwrap(), 5);
    assert_eq!(*list.pop().unwrap(), 4);
    assert_eq!(*list.pop_front().unwrap(), 3);
    assert_eq!(collect(list.iter()), vec![1, 0, 2]);
    list.push(7);
    list.push_front(8);
    assert_eq!(collect(list.iter()), vec![8, 1, 0, 2, 7]);
}

#[test]
fn big_push_iterates_in_order() {
    let mut list = LinkedList::new();
    for i in 0..100000 {
        list.push(i);
    }
    assert_eq!(list.len(), 100000);
    let expected: Vec<i32> = (0..100000).collect();
    assert_eq!(collect(list.iter()), expected);
}

#[test]
fn iterator_stays_exhausted() {
    let mut list = LinkedList::new();
    list.push(1);
    let mut it = list.iter();
    assert_eq!(it.next().map(|v| *v), Some(1));
    assert!(it.next().is_none());
    assert!(it.next().is_none());
}

#[test]
fn popped_value_outlives_its_node() {
    let mut list = LinkedList::new();
    list.push(String::from("kept"));
    let mut it = list.iter();
    let shared = it.next().unwrap();
    let popped = list.pop_front().unwrap();
    assert_eq!(popped.as_str(), "kept");
    assert_eq!(shared.as_str(), "kept");
}

#[test]
fn default_list_is_empty() {
    let list: LinkedList<i32> = LinkedList::default();
    assert!(list.is_empty());
    assert!(list.iter().next().is_none());
}

#[test]
fn array_items_pop_correctly() {
    let mut list = LinkedList::new();
    list.push([1, 2]);
    list.push_front([0, 0]);
    assert_eq!(*list.pop().unwrap(), [1, 2]);
    assert_eq!(*list.pop().unwrap(), [0, 0]);
    assert!(list.pop().is_none());
}
