use dl_list::dl_list::DlIndex;
use dl_list::dl_list::DlList;

#[test]
fn push_then_pop_then_search() {
    let mut list = DlList::new();

    let h1 = list.push_back(1);
    let h2 = list.push_back(2);

    assert_eq!(list.get(h1).unwrap(), 1);
    assert_eq!(list.get(h2).unwrap(), 2);
    assert_eq!(list.next_index(h1).unwrap(), h2);
    assert_eq!(list.pop_front().unwrap(), 1);
    assert_eq!(list.pop_front().unwrap(), 2);
    assert!(!list.contains(&5));
}

#[test]
fn remove_middle_keeps_order() {
    let mut list = DlList::new();

    list.push_back(1);
    list.push_back(2);
    let three = list.push_back(3);
    list.push_back(4);
    list.push_back(5);

    assert_eq!(list.remove(three).unwrap(), 3);
    assert_eq!(list.iter(), vec![1, 2, 4, 5]);
    assert!(list.remove(three).is_none());
}

#[test]
fn push_front_order() {
    let mut list = DlList::new();

    list.push_back(1);
    list.push_back(2);
    list.push_front(3);

    assert_eq!(list.iter(), vec![3, 1, 2]);
    assert_eq!(list.head().unwrap(), 3);
    let tail = list.tail_index().unwrap();
    assert_eq!(list.get(tail).unwrap(), 2);
}

#[test]
fn reused_slot_bumps_generation() {
    let mut list = DlList::new();

    list.push_back(1);
    let h = list.push_back(2);
    list.push_back(3);

    assert_eq!(list.remove(h).unwrap(), 2);

    let h4 = list.push_back(4);

    assert_eq!(h4.index, h.index);
    assert!(h4.rm_cnt > h.rm_cnt);
    assert_ne!(h4, h);
    assert!(list.get(h).is_none());
    assert!(!list.contains(&2));
    assert!(list.contains(&4));
}

#[test]
fn empty_list_yields_nothing() {
    let mut list = DlList::new();

    assert!(list.pop_front().is_none());
    assert!(list.remove(DlIndex::new(0, 0)).is_none());
    assert!(list.head().is_none());
    assert!(list.head_index().is_none());
    assert!(list.tail_index().is_none());
    assert_eq!(list.data.len(), 0);
    assert_eq!(list.rm_cnt, 0);
    assert!(list.iter().is_empty());
}

#[test]
fn invalid_handle_mutates_nothing() {
    let mut list = DlList::new();

    list.push_back(7);
    let stale = DlIndex::new(0, 9);
    let foreign = DlIndex::new(5, 0);

    assert!(list.remove(stale).is_none());
    assert!(list.remove(foreign).is_none());
    assert!(list.get(stale).is_none());
    assert!(list.next_index(stale).is_none());
    assert!(list.prev_index(stale).is_none());
    assert_eq!(list.iter(), vec![7]);
    assert_eq!(list.rm_cnt, 0);
}

#[test]
fn default_is_empty() {
    let list: DlList = Default::default();

    assert!(list.head().is_none());
    assert_eq!(list.data.len(), 0);
}

#[test]
fn push_front_on_empty() {
    let mut list = DlList::new();

    let h = list.push_front(9);

    assert_eq!(list.head_index().unwrap(), h);
    assert_eq!(list.tail_index().unwrap(), h);
    assert_eq!(list.iter(), vec![9]);
}

#[test]
fn index_of_finds_first_match() {
    let mut list = DlList::new();

    list.push_back(5);
    let mid = list.push_back(6);
    list.push_back(5);

    let first = list.index_of(&5).unwrap();
    assert_eq!(list.prev_index(first), None);
    list.remove(mid).unwrap();
    assert_eq!(list.iter(), vec![5, 5]);
}

#[test]
fn traversal_mirrors_in_both_directions() {
    let mut list = DlList::new();

    list.push_back(10);
    list.push_back(20);
    list.push_back(30);

    let mut forward = Vec::new();
    let mut cur = list.head_index();
    while let Some(h) = cur {
        forward.push(list.get(h).unwrap());
        cur = list.next_index(h);
    }

    let mut backward = Vec::new();
    let mut cur = list.tail_index();
    while let Some(h) = cur {
        backward.push(list.get(h).unwrap());
        cur = list.prev_index(h);
    }

    backward.reverse();
    assert_eq!(forward, backward);
    assert_eq!(forward, vec![10, 20, 30]);
}
