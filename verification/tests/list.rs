use doubly_linked_list::list::List;
use doubly_linked_list::node::Node;
use std::collections::VecDeque;

fn forward(list: &List<i32>) -> Vec<i32> {
    list.front_to_back().into_iter().copied().collect()
}

fn backward(list: &List<i32>) -> Vec<i32> {
    list.back_to_front().into_iter().copied().collect()
}

fn reversed(mut values: Vec<i32>) -> Vec<i32> {
    values.reverse();
    values
}

#[test]
fn new_node_is_linked_to_nothing() {
    let node: Node<i32> = Node::new(7);
    assert_eq!(node.elem, 7);
    assert_eq!(node.next, None);
    assert_eq!(node.prev, None);
}

#[test]
fn new_list_is_empty() {
    let mut list: List<i32> = List::new();
    assert!(list.is_empty());
    assert_eq!(forward(&list), Vec::<i32>::new());
    assert_eq!(backward(&list), Vec::<i32>::new());
    assert_eq!(list.pop_front(), None);
    assert_eq!(list.pop_back(), None);
    assert!(list.is_empty());
}

#[test]
fn default_list_is_empty() {
    let mut list: List<i32> = List::default();
    assert!(list.is_empty());
    assert_eq!(list.pop_front(), None);
    assert_eq!(list.pop_back(), None);
}

#[test]
fn push_front_on_empty_list_sets_both_ends() {
    let mut list: List<i32> = List::new();
    list.push_front(5);
    assert!(!list.is_empty());
    assert_eq!(forward(&list), vec![5]);
    assert_eq!(backward(&list), vec![5]);
    assert_eq!(list.pop_back(), Some(5));
    assert!(list.is_empty());
}

#[test]
fn push_back_on_empty_list_sets_both_ends() {
    let mut list: List<i32> = List::new();
    list.push_back(5);
    assert!(!list.is_empty());
    assert_eq!(forward(&list), vec![5]);
    assert_eq!(backward(&list), vec![5]);
    assert_eq!(list.pop_front(), Some(5));
    assert!(list.is_empty());
}

#[test]
fn push_front_puts_the_new_element_first() {
    let mut list: List<i32> = List::new();
    list.push_front(1);
    list.push_front(2);
    assert_eq!(forward(&list), vec![2, 1]);
    list.push_front(3);
    assert_eq!(forward(&list), vec![3, 2, 1]);
    assert_eq!(backward(&list), vec![1, 2, 3]);
}

#[test]
fn push_back_puts_the_new_element_last() {
    let mut list: List<i32> = List::new();
    list.push_back(1);
    list.push_back(2);
    assert_eq!(forward(&list), vec![1, 2]);
    list.push_back(3);
    assert_eq!(forward(&list), vec![1, 2, 3]);
    assert_eq!(backward(&list), vec![3, 2, 1]);
}

#[test]
fn pushes_at_both_ends_interleave() {
    let mut list: List<i32> = List::new();
    list.push_back(3);
    list.push_front(2);
    list.push_back(4);
    list.push_front(1);
    assert_eq!(forward(&list), vec![1, 2, 3, 4]);
    assert_eq!(backward(&list), vec![4, 3, 2, 1]);
}

#[test]
fn scenario_of_three_pushes_and_four_pops() {
    let mut list: List<i32> = List::new();
    list.push_front(1);
    list.push_front(2);
    list.push_front(3);
    assert_eq!(forward(&list), vec![3, 2, 1]);
    assert_eq!(list.pop_front(), Some(3));
    assert_eq!(forward(&list), vec![2, 1]);
    assert_eq!(list.pop_back(), Some(1));
    assert_eq!(forward(&list), vec![2]);
    assert_eq!(list.pop_front(), Some(2));
    assert!(list.is_empty());
    assert_eq!(forward(&list), Vec::<i32>::new());
    assert_eq!(list.pop_front(), None);
}

#[test]
fn push_front_then_pop_front_is_last_in_first_out() {
    let mut n: usize = 0;
    while n <= 8 {
        let values: Vec<i32> = (0..n).map(|k| 10 * (k as i32) + 1).collect();
        let mut list: List<i32> = List::new();
        for v in values.iter() {
            list.push_front(*v);
        }
        let mut popped: Vec<i32> = Vec::new();
        for _ in 0..n {
            popped.push(list.pop_front().unwrap());
        }
        assert_eq!(popped, reversed(values));
        assert!(list.is_empty());
        n += 1;
    }
}

#[test]
fn last_in_first_out_leaves_older_elements_in_place() {
    let mut list: List<i32> = List::new();
    list.push_back(100);
    list.push_back(200);
    list.push_front(1);
    list.push_front(2);
    list.push_front(3);
    assert_eq!(list.pop_front(), Some(3));
    assert_eq!(list.pop_front(), Some(2));
    assert_eq!(list.pop_front(), Some(1));
    assert_eq!(forward(&list), vec![100, 200]);
}

#[test]
fn push_front_then_pop_back_is_first_in_first_out() {
    let mut list: List<i32> = List::new();
    list.push_front(11);
    list.push_front(22);
    list.push_front(33);
    assert_eq!(list.pop_back(), Some(11));
    assert_eq!(list.pop_back(), Some(22));
    assert_eq!(list.pop_back(), Some(33));
    assert!(list.is_empty());
}

#[test]
fn push_back_then_pop_front_is_first_in_first_out() {
    let mut list: List<i32> = List::new();
    list.push_back(11);
    list.push_back(22);
    list.push_back(33);
    assert_eq!(list.pop_front(), Some(11));
    assert_eq!(list.pop_front(), Some(22));
    assert_eq!(list.pop_front(), Some(33));
    assert!(list.is_empty());
}

#[test]
fn exhausted_list_is_empty_and_pops_return_none() {
    let mut list: List<i32> = List::new();
    list.push_back(1);
    list.push_back(2);
    list.push_back(3);
    list.push_back(4);
    assert_eq!(list.pop_back(), Some(4));
    assert_eq!(list.pop_front(), Some(1));
    assert_eq!(list.pop_front(), Some(2));
    assert!(!list.is_empty());
    assert_eq!(list.pop_back(), Some(3));
    assert!(list.is_empty());
    assert_eq!(list.pop_front(), None);
    assert_eq!(list.pop_back(), None);
    assert_eq!(list.pop_back(), None);
    assert_eq!(list.pop_front(), None);
    assert!(list.is_empty());
    assert_eq!(forward(&list), Vec::<i32>::new());
    assert_eq!(backward(&list), Vec::<i32>::new());
}

#[test]
fn exhausted_list_can_be_used_again() {
    let mut list: List<i32> = List::new();
    list.push_front(1);
    assert_eq!(list.pop_back(), Some(1));
    assert_eq!(list.pop_back(), None);
    list.push_back(2);
    list.push_front(3);
    assert_eq!(forward(&list), vec![3, 2]);
    assert_eq!(list.pop_front(), Some(3));
    assert_eq!(list.pop_front(), Some(2));
    assert!(list.is_empty());
}

#[test]
fn pop_of_the_only_element_clears_both_ends() {
    let mut list: List<i32> = List::new();
    list.push_back(9);
    assert_eq!(list.pop_front(), Some(9));
    assert_eq!(list.pop_back(), None);
    assert_eq!(backward(&list), Vec::<i32>::new());
    list.push_front(8);
    assert_eq!(list.pop_back(), Some(8));
    assert_eq!(list.pop_front(), None);
    assert_eq!(forward(&list), Vec::<i32>::new());
}

#[test]
fn backward_reading_is_forward_reading_reversed() {
    let mut list: List<i32> = List::new();
    assert_eq!(forward(&list), reversed(backward(&list)));
    let mut step: i32 = 0;
    while step < 40 {
        match step % 7 {
            0 | 3 => list.push_front(step),
            1 | 4 | 6 => list.push_back(step),
            2 => {
                list.pop_front();
            }
            _ => {
                list.pop_back();
            }
        }
        assert_eq!(forward(&list), reversed(backward(&list)));
        step += 1;
    }
    assert!(!list.is_empty());
}

#[test]
fn ends_stay_consistent_through_mixed_operations() {
    let mut list: List<i32> = List::new();
    let mut step: i32 = 0;
    while step < 60 {
        match step % 11 {
            0 | 1 | 5 => list.push_front(step),
            2 | 6 | 7 => list.push_back(step),
            3 | 8 | 9 => {
                list.pop_front();
            }
            _ => {
                list.pop_back();
            }
        }
        let read: Vec<i32> = forward(&list);
        let read_back: Vec<i32> = backward(&list);
        assert_eq!(list.is_empty(), read.is_empty());
        assert_eq!(read.is_empty(), read_back.is_empty());
        assert_eq!(read.len(), read_back.len());
        assert_eq!(read.first(), read_back.last());
        assert_eq!(read.last(), read_back.first());
        step += 1;
    }
}

#[test]
fn list_agrees_with_a_deque_on_a_long_run() {
    let mut list: List<i32> = List::new();
    let mut deque: VecDeque<i32> = VecDeque::new();
    let mut state: u32 = 12345;
    let mut step: i32 = 0;
    while step < 2000 {
        state = state.wrapping_mul(1103515245).wrapping_add(12345);
        match (state >> 16) % 5 {
            0 => {
                list.push_front(step);
                deque.push_front(step);
            }
            1 => {
                list.push_back(step);
                deque.push_back(step);
            }
            2 => assert_eq!(list.pop_front(), deque.pop_front()),
            3 => assert_eq!(list.pop_back(), deque.pop_back()),
            _ => assert_eq!(list.is_empty(), deque.is_empty()),
        }
        if step % 50 == 0 {
            let expected: Vec<i32> = deque.iter().copied().collect();
            assert_eq!(forward(&list), expected);
            assert_eq!(backward(&list), reversed(expected));
        }
        step += 1;
    }
    let expected: Vec<i32> = deque.iter().copied().collect();
    assert_eq!(forward(&list), expected);
    while let Some(value) = deque.pop_back() {
        assert_eq!(list.pop_back(), Some(value));
    }
    assert!(list.is_empty());
    assert_eq!(list.pop_front(), None);
}

#[test]
fn elements_are_moved_in_and_out_unchanged() {
    let mut list: List<String> = List::new();
    list.push_back(String::from("b"));
    list.push_front(String::from("a"));
    list.push_back(String::from("c"));
    let read: Vec<String> = list.front_to_back().into_iter().cloned().collect();
    assert_eq!(read, vec![String::from("a"), String::from("b"), String::from("c")]);
    assert_eq!(list.pop_back(), Some(String::from("c")));
    assert_eq!(list.pop_front(), Some(String::from("a")));
    assert_eq!(list.pop_front(), Some(String::from("b")));
    assert_eq!(list.pop_front(), None);
}

#[test]
fn reading_does_not_change_the_list() {
    let mut list: List<i32> = List::new();
    list.push_back(1);
    list.push_back(2);
    assert_eq!(forward(&list), vec![1, 2]);
    assert_eq!(forward(&list), vec![1, 2]);
    assert_eq!(backward(&list), vec![2, 1]);
    assert_eq!(forward(&list), vec![1, 2]);
    assert_eq!(list.pop_front(), Some(1));
    assert_eq!(list.pop_front(), Some(2));
}
