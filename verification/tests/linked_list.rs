use rustable::allocator::linked_list::LinkedList;
use rustable::allocator::page::Page;

fn table(frames: usize) -> Vec<Page> {
    (0..frames).map(|_| Page::new()).collect()
}

fn members(list: &LinkedList, pages: &Vec<Page>) -> Vec<usize> {
    let mut out = Vec::new();
    let mut current = list.peek();
    while let Some(node) = current {
        out.push(node);
        current = list.next(pages, node);
    }
    out
}

#[test]
fn new_list_is_empty() {
    let list = LinkedList::new();
    assert!(list.is_empty());
    assert_eq!(list.peek(), None);
}

#[test]
fn push_front_puts_newest_first() {
    let mut pages = table(8);
    let mut list = LinkedList::new();
    list.push_front(&mut pages, 3);
    list.push_front(&mut pages, 5);
    list.push_front(&mut pages, 1);
    assert!(!list.is_empty());
    assert_eq!(members(&list, &pages), vec![1, 5, 3]);
    assert_eq!(pages[1].link, Some(5));
    assert_eq!(pages[5].link, Some(3));
    assert_eq!(pages[3].link, None);
}

#[test]
fn remove_head_pops_first() {
    let mut pages = table(8);
    let mut list = LinkedList::new();
    list.push_front(&mut pages, 3);
    list.push_front(&mut pages, 5);
    assert_eq!(list.remove_head(&mut pages), 5);
    assert_eq!(members(&list, &pages), vec![3]);
    assert_eq!(pages[5].link, None);
    assert_eq!(list.remove_head(&mut pages), 3);
    assert!(list.is_empty());
}

#[test]
fn remove_takes_tracked_node_out() {
    let mut pages = table(8);
    let mut list = LinkedList::new();
    for node in [7usize, 2, 4, 6] {
        list.push_front(&mut pages, node);
    }
    assert_eq!(members(&list, &pages), vec![6, 4, 2, 7]);
    list.remove(&mut pages, 2, Some(4));
    assert_eq!(members(&list, &pages), vec![6, 4, 7]);
    assert_eq!(pages[2].link, None);
    list.remove(&mut pages, 7, Some(4));
    assert_eq!(members(&list, &pages), vec![6, 4]);
    list.remove(&mut pages, 6, None);
    assert_eq!(members(&list, &pages), vec![4]);
}

#[test]
fn replace_keeps_position() {
    let mut pages = table(8);
    let mut list = LinkedList::new();
    for node in [1usize, 2, 3] {
        list.push_front(&mut pages, node);
    }
    list.replace(&mut pages, 2, Some(3), 5);
    assert_eq!(members(&list, &pages), vec![3, 5, 1]);
    list.replace(&mut pages, 3, None, 0);
    assert_eq!(members(&list, &pages), vec![0, 5, 1]);
    assert_eq!(pages[2].link, None);
    assert_eq!(pages[3].link, None);
}

#[test]
fn insert_after_goes_behind_node() {
    let mut pages = table(8);
    let mut list = LinkedList::new();
    list.push_front(&mut pages, 1);
    list.push_front(&mut pages, 2);
    list.insert_after(&mut pages, 2, 6);
    assert_eq!(members(&list, &pages), vec![2, 6, 1]);
    list.insert_after(&mut pages, 1, 7);
    assert_eq!(members(&list, &pages), vec![2, 6, 1, 7]);
}
