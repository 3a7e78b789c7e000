use linked_list::List;
use std::cell::Cell;
use std::rc::Rc;

#[test]
fn test_list() {
    let mut list = List::new();

    for i in 0..=5 {
        list.push_back(i);
    }

    for i in 0..=5 {
        assert_eq!(list.pop_front().unwrap(), i);
    }
}

#[test]
fn new_list_is_empty() {
    let list: List<u8> = List::new();
    assert_eq!(list.len(), 0);
    assert!(list.is_empty());
    assert_eq!(list.iter().collect(), Vec::<&u8>::new());
}

#[test]
fn push_back_then_pop_front_is_fifo() {
    let mut list = List::new();
    for i in 10..20 {
        list.push_back(i);
    }
    for i in 10..20 {
        assert_eq!(list.pop_front(), Some(i));
    }
    assert_eq!(list.pop_front(), None);
}

#[test]
fn push_front_then_pop_front_is_lifo() {
    let mut list = List::new();
    for i in 0..8 {
        list.push_front(i);
    }
    for i in (0..8).rev() {
        assert_eq!(list.pop_front(), Some(i));
    }
    assert_eq!(list.pop_front(), None);
}

#[test]
fn len_counts_pushes_less_successful_pops() {
    let mut list = List::new();
    list.push_back(1);
    list.push_front(2);
    list.push_back(3);
    assert_eq!(list.len(), 3);
    assert_eq!(list.pop_back(), Some(3));
    assert_eq!(list.pop_front(), Some(2));
    assert_eq!(list.pop_back(), Some(1));
    assert_eq!(list.pop_back(), None);
    assert_eq!(list.pop_front(), None);
    assert_eq!(list.len(), 0);
    list.push_front(4);
    assert_eq!(list.len(), 1);
}

#[test]
fn pops_on_empty_list_return_none() {
    let mut list: List<String> = List::new();
    assert_eq!(list.pop_front(), None);
    assert_eq!(list.len(), 0);
    assert_eq!(list.pop_back(), None);
    assert_eq!(list.len(), 0);
    assert!(list.is_empty());
}

#[test]
fn interleaved_pushes_keep_structural_order() {
    let mut list = List::new();
    list.push_front(1);
    list.push_back(2);
    list.push_front(3);
    assert_eq!(list.iter().collect(), vec![&3, &1, &2]);
}

#[test]
fn scenario_push_back_three() {
    let mut list = List::new();
    list.push_back(1);
    list.push_back(2);
    list.push_back(3);
    assert_eq!(list.iter().collect(), vec![&1, &2, &3]);
    assert_eq!(list.pop_front(), Some(1));
    assert_eq!(list.pop_back(), Some(3));
    assert_eq!(list.iter().collect(), vec![&2]);
    assert_eq!(list.len(), 1);
}

#[test]
fn iter_next_stops_at_the_end() {
    let mut list = List::new();
    list.push_back('x');
    list.push_back('y');
    let mut it = list.iter();
    assert_eq!(it.next(), Some(&'x'));
    assert_eq!(it.next(), Some(&'y'));
    assert_eq!(it.next(), None);
    assert_eq!(it.next(), None);
}

#[test]
fn pop_back_walks_to_the_new_tail() {
    let mut list = List::new();
    for i in 0..5 {
        list.push_back(i);
    }
    assert_eq!(list.pop_back(), Some(4));
    assert_eq!(list.pop_back(), Some(3));
    list.push_back(9);
    assert_eq!(list.iter().collect(), vec![&0, &1, &2, &9]);
    assert_eq!(list.pop_back(), Some(9));
    assert_eq!(list.pop_back(), Some(2));
    assert_eq!(list.pop_back(), Some(1));
    assert_eq!(list.pop_back(), Some(0));
    assert_eq!(list.pop_back(), None);
    list.push_back(7);
    assert_eq!(list.iter().collect(), vec![&7]);
}

#[test]
fn freed_slots_are_reused() {
    let mut list = List::new();
    for round in 0..100 {
        list.push_back(round);
        list.push_front(round + 1000);
        assert_eq!(list.pop_back(), Some(round));
        assert_eq!(list.pop_front(), Some(round + 1000));
    }
    assert!(list.is_empty());
    list.push_back(1);
    list.push_front(0);
    list.push_back(2);
    assert_eq!(list.iter().collect(), vec![&0, &1, &2]);
}

#[test]
fn rev_reverses_in_place() {
    let mut list = List::new();
    list.rev();
    assert!(list.is_empty());
    list.push_back(1);
    list.rev();
    assert_eq!(list.iter().collect(), vec![&1]);
    list.push_back(2);
    list.push_front(0);
    list.push_back(3);
    list.rev();
    assert_eq!(list.iter().collect(), vec![&3, &2, &1, &0]);
    assert_eq!(list.pop_back(), Some(0));
    list.push_back(-1);
    assert_eq!(list.iter().collect(), vec![&3, &2, &1, &-1]);
    assert_eq!(list.len(), 4);
}

struct Counted(Rc<Cell<usize>>);

impl Drop for Counted {
    fn drop(&mut self) {
        self.0.set(self.0.get() + 1);
    }
}

#[test]
fn dropping_a_long_list_drops_each_element_once() {
    let dropped = Rc::new(Cell::new(0usize));
    let n = 1_000_000;
    {
        let mut list = List::new();
        for _ in 0..n {
            list.push_back(Counted(dropped.clone()));
        }
        let popped = list.pop_front();
        assert!(popped.is_some());
        drop(popped);
        assert_eq!(dropped.get(), 1);
        list.push_front(Counted(dropped.clone()));
    }
    assert_eq!(dropped.get(), n + 1);
}
