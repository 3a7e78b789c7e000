use linked_list::safe_list::LinkedList;

#[test]
fn list_new() {
    let mut list = LinkedList::new();
    list.push("a".to_string());
    list.push("b".to_string());
    list.push("c".to_string());

    let mut it = list.iter();
    while let Some(v) = it.next() {
        println!("{}", v);
    }
    assert_eq!(list.len(), 3);
}

#[test]
fn safe_list_list_iter() {
    let mut list = LinkedList::new();
    list.push("a".to_string());
    list.push("b".to_string());
    list.push("c".to_string());

    let res: Vec<&String> = list.iter().collect();
    assert_eq!(vec!["c", "b", "a"], res);
}

#[test]
fn safe_list_iter_on_empty_list() {
    let list: LinkedList<String> = LinkedList::new();
    assert_eq!(list.iter().next(), None);
}
