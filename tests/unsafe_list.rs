use linked_list::unsafe_list::{LinkedList, Node};

#[test]
fn unsafe_list_list_iter() {
    let mut list = LinkedList::new();

    list.push("a".to_string());
    list.push_back("b".to_string());
    list.push("c".to_string());
    list.push_back("d".to_string());

    let res: Vec<&String> = list.iter().collect();

    assert_eq!(vec!["c", "a", "b", "d"], res);
}

#[test]
fn list_pop() {
    let mut list = LinkedList::new();
    list.push(1);
    list.push(2);
    list.push(3);

    assert_eq!(Some(1), list.pop_tail());
    assert_eq!(Some(2), list.pop_tail());
    assert_eq!(Some(3), list.pop_tail());
    assert_eq!(None, list.pop_tail());
}

#[test]
fn unsafe_list_pop_takes_the_front() {
    let mut list = LinkedList::new();
    list.push(1);
    list.push_back(2);
    list.push(0);
    assert_eq!(list.pop(), Some(0));
    assert_eq!(list.pop(), Some(1));
    assert_eq!(list.len(), 1);
    assert_eq!(list.pop(), Some(2));
    assert_eq!(list.pop(), None);
}

#[test]
fn unsafe_list_rev() {
    let mut list = LinkedList::new();
    list.push_back(1);
    list.push_back(2);
    list.push_back(3);
    list.rev();
    assert_eq!(list.iter().collect(), vec![&3, &2, &1]);
    assert_eq!(list.pop_tail(), Some(1));
    assert_eq!(list.pop(), Some(3));
}

#[test]
fn node_gives_back_its_element() {
    let node = Node::new(String::from("kept"));
    assert_eq!(node.into_node(), "kept");
}
