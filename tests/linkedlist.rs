use linkedlist::LinkedList;

fn values_of<T: Copy>(list: &LinkedList<T>) -> Vec<T> {
    let mut out = Vec::new();
    let mut it = list.iter();
    while let Some(v) = it.next() {
        out.push(*v.as_ref());
    }
    out
}

#[test]
fn test_push_and_pop() {
    let mut new_list = LinkedList::<i32>::new();
    new_list.push(1);
    new_list.pop();
    assert_eq!(new_list.len(), 0);
}

#[test]
fn test_push_back_length() {
    let mut new_list = LinkedList::<i32>::new();
    let values = (0..10).collect::<Vec<i32>>();
    for i in values {
        new_list.push(i);
    }
    assert_eq!(new_list.len(), 10);
}

#[test]
fn test_push_front_length() {
    let mut new_list = LinkedList::<i32>::new();
    let values = (0..10).collect::<Vec<i32>>();
    for i in values {
        new_list.push_front(i)
    }
    assert_eq!(new_list.len(), 10);
}

#[test]
fn test_push_back_values() {
    let mut new_list = LinkedList::<i32>::new();
    let values = (0..10).collect::<Vec<i32>>();
    for &i in values.iter() {
        new_list.push(i);
    }
    let values_from_list = values_of(&new_list);
    assert_eq!(values, values_from_list);
}

#[test]
fn test_push_front_values() {
    let mut new_list = LinkedList::<i32>::new();
    let values = (0..10).collect::<Vec<i32>>();
    for &i in values.iter() {
        new_list.push_front(i)
    }
    let values_from_list = values_of(&new_list);
    let values = values.iter().rev().copied().collect::<Vec<i32>>();
    assert_eq!(values, values_from_list);
}

#[test]
fn test_empty_list_length() {
    let new_list = LinkedList::<i32>::new();
    assert_eq!(new_list.len(), 0);
}

#[test]
fn test_list_length_single() {
    let mut new_list = LinkedList::<i32>::new();
    new_list.push(1);
    assert_eq!(new_list.len(), 1);
}

#[test]
fn test_list_str_push_back() {
    let mut new_list = LinkedList::<&str>::new();
    let strings = ["10", "20", "30", "40", "50"].to_vec();
    for s in &strings {
        new_list.push(s);
    }
    let strings_from_list = values_of(&new_list);
    assert_eq!(strings, strings_from_list);
}

#[test]
fn test_iter_values() {
    let mut new_list = LinkedList::<i32>::new();
    let values = (0..10).collect::<Vec<i32>>();
    for &i in values.iter() {
        new_list.push(i);
    }
    let mut values_from_list: Vec<i32> = vec![];
    let mut it = new_list.into_iter();
    while let Some(i) = it.next() {
        values_from_list.push(*i);
    }
    assert_eq!(values, values_from_list);
}

#[test]
fn test_big_push() {
    let mut new_list = LinkedList::<i32>::new();
    for i in 0..100000 {
        new_list.push(i);
    }
    assert_eq!(new_list.len(), 100000);
}

#[test]
fn test_bigger_push() {
    let mut new_list = LinkedList::<i32>::new();
    for i in 0..10000000 {
        new_list.push(i);
    }
    assert_eq!(new_list.len(), 10000000);
}

#[test]
fn test_array_push() {
    let mut new_list = LinkedList::<[i32; 3]>::new();
    let arrays: Vec<[i32; 3]> = vec![[1, 2, 3], [4, 5, 6], [7, 8, 9]];
    for &a in arrays.iter() {
        new_list.push(a);
    }
    let arrays_from_list = values_of(&new_list);
    assert_eq!(arrays, arrays_from_list);
}
