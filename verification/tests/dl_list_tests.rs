use dl_list::dl_list::DlEntry;
use dl_list::dl_list::DlIndex;
use dl_list::dl_list::DlList;
use dl_list::dl_list::OcEntry;

#[test]
fn create_list() {
    let _list: DlList = DlList::new();
}

#[test]
fn head() {
    let mut list = DlList::new();

    assert!(list.head().is_none());

    let one = list.push_back(1);

    assert_eq!(list.head().unwrap(), 1);

    list.push_back(2);

    list.remove(one);

    assert_eq!(list.head().unwrap(), 2);
    assert_eq!(list.data[0], DlEntry::Free { next_free: None });
    assert_eq!(list.head, Some(1));
    assert_eq!(
        list.data[1],
        DlEntry::Occupied(OcEntry {
            item: 2,
            next: None,
            prev: None,
            rm_cnt: 0,
        })
    );
}

#[test]
fn head_index() {
    let mut list = DlList::new();

    assert!(list.head_index().is_none());

    let one = list.push_back(1);

    assert_eq!(list.head_index().unwrap(), one);
}

#[test]
fn tail_index() {
    let mut list = DlList::new();

    assert!(list.tail_index().is_none());

    list.push_back(1);
    let two = list.push_back(2);

    assert_eq!(list.tail_index().unwrap(), two);
}

#[test]
fn push_back() {
    let mut list = DlList::new();

    list.push_back(1);

    assert_eq!(
        list.data[0],
        DlEntry::Occupied(OcEntry {
            item: 1,
            next: None,
            prev: None,
            rm_cnt: 0,
        })
    );
}

#[test]
fn push_front() {
    let mut list = DlList::new();

    list.push_front(1);
    list.push_front(2);

    assert_eq!(
        list.data[0],
        DlEntry::Occupied(OcEntry {
            item: 1,
            next: None,
            prev: Some(1),
            rm_cnt: 0,
        })
    );
    assert_eq!(
        list.data[1],
        DlEntry::Occupied(OcEntry {
            item: 2,
            next: Some(0),
            prev: None,
            rm_cnt: 0,
        })
    );
}

#[test]
fn contains() {
    let mut list = DlList::new();

    list.push_back(1);

    assert!(list.contains(&1));
}

#[test]
fn get() {
    let mut list = DlList::new();

    let one = list.push_back(1);
    let entry = list.get(one);

    assert!(entry.is_some());
    assert_eq!(entry.unwrap(), 1);
}

#[test]
fn next_index() {
    let mut list = DlList::new();

    let one = list.push_back(1);
    list.push_back(2);

    let two_index = list.next_index(one).unwrap();
    let two_value = list.get(two_index);

    assert_eq!(two_value.unwrap(), 2);
    assert_eq!(None, list.next_index(two_index));
}

#[test]
fn prev_index() {
    let mut list = DlList::new();

    list.push_back(1);
    let two = list.push_back(2);

    let one_index = list.prev_index(two).unwrap();
    let one_value = list.get(one_index);

    assert_eq!(one_value.unwrap(), 1);
    assert_eq!(None, list.prev_index(one_index));
}

#[test]
fn index() {
    let mut list = DlList::new();

    let one = list.push_back(1);
    let entry: u64 = list.get(one).unwrap();

    assert_eq!(entry, 1);
}

#[test]
fn remove() {
    let mut list = DlList::new();

    let one = list.push_back(1);
    let two = list.push_back(2);
    let three = list.push_back(3);
    let four = list.push_back(4);
    let five = list.push_back(5);

    let removed_middle: u64 = list.remove(three).unwrap();
    assert_eq!(removed_middle, 3);
    assert_eq!(
        list.data,
        vec![
            DlEntry::Occupied(OcEntry {
                item: 1,
                next: Some(1),
                prev: None,
                rm_cnt: 0,
            }),
            DlEntry::Occupied(OcEntry {
                item: 2,
                next: Some(3),
                prev: Some(0),
                rm_cnt: 0,
            }),
            DlEntry::Free { next_free: None },
            DlEntry::Occupied(OcEntry {
                item: 4,
                next: Some(4),
                prev: Some(1),
                rm_cnt: 0,
            }),
            DlEntry::Occupied(OcEntry {
                item: 5,
                next: None,
                prev: Some(3),
                rm_cnt: 0,
            }),
        ]
    );
    assert_eq!(list.next_free, Some(2));
    assert_eq!(list.head, Some(0));
    assert_eq!(list.tail, Some(4));
    assert_eq!(list.rm_cnt, 1);

    let removed_head: u64 = list.remove(one).unwrap();
    assert_eq!(removed_head, 1);
    assert_eq!(
        list.data,
        vec![
            DlEntry::Free { next_free: Some(2) },
            DlEntry::Occupied(OcEntry {
                item: 2,
                next: Some(3),
                prev: None,
                rm_cnt: 0,
            }),
            DlEntry::Free { next_free: None },
            DlEntry::Occupied(OcEntry {
                item: 4,
                next: Some(4),
                prev: Some(1),
                rm_cnt: 0,
            }),
            DlEntry::Occupied(OcEntry {
                item: 5,
                next: None,
                prev: Some(3),
                rm_cnt: 0,
            }),
        ]
    );
    assert_eq!(list.next_free, Some(0));
    assert_eq!(list.head, Some(1));
    assert_eq!(list.tail, Some(4));
    assert_eq!(list.rm_cnt, 2);

    let removed_tail: u64 = list.remove(five).unwrap();
    assert_eq!(removed_tail, 5);
    assert_eq!(
        list.data,
        vec![
            DlEntry::Free { next_free: Some(2) },
            DlEntry::Occupied(OcEntry {
                item: 2,
                next: Some(3),
                prev: None,
                rm_cnt: 0,
            }),
            DlEntry::Free { next_free: None },
            DlEntry::Occupied(OcEntry {
                item: 4,
                next: None,
                prev: Some(1),
                rm_cnt: 0,
            }),
            DlEntry::Free { next_free: Some(0) },
        ]
    );
    assert_eq!(list.next_free, Some(4));
    assert_eq!(list.head, Some(1));
    assert_eq!(list.tail, Some(3));
    assert_eq!(list.rm_cnt, 3);

    let removed_two: u64 = list.remove(two).unwrap();
    let removed_four: u64 = list.remove(four).unwrap();
    assert_eq!(removed_two, 2);
    assert_eq!(removed_four, 4);

    assert_eq!(
        list.data,
        vec![
            DlEntry::Free { next_free: Some(2) },
            DlEntry::Free { next_free: Some(4) },
            DlEntry::Free { next_free: None },
            DlEntry::Free { next_free: Some(1) },
            DlEntry::Free { next_free: Some(0) },
        ]
    );
    assert_eq!(list.next_free, Some(3));
    assert_eq!(list.head, None);
    assert_eq!(list.tail, None);
    assert_eq!(list.rm_cnt, 5);

    assert!(list.remove(five).is_none());
}

#[test]
fn push_after_remove() {
    let mut list = DlList::new();

    list.push_back(1);
    let two = list.push_back(2);
    list.push_back(3);

    let two: u64 = list.remove(two).unwrap();

    assert_eq!(two, 2);

    list.push_back(4);

    assert_eq!(
        list.data[0],
        DlEntry::Occupied(OcEntry {
            item: 1,
            next: Some(2),
            prev: None,
            rm_cnt: 0,
        })
    );

    assert_eq!(
        list.data[1],
        DlEntry::Occupied(OcEntry {
            item: 4,
            next: None,
            prev: Some(2),
            rm_cnt: 1,
        })
    );

    assert_eq!(
        list.data[2],
        DlEntry::Occupied(OcEntry {
            item: 3,
            next: Some(1),
            prev: Some(0),
            rm_cnt: 0,
        })
    );
}

#[test]
fn iter() {
    let mut list = DlList::new();

    list.push_back(1);
    let two = list.push_back(2);
    list.push_back(3);

    list.remove(two);

    let mut iter = list.iter().into_iter();

    assert_eq!(iter.next().unwrap(), 1);
    assert_eq!(iter.next().unwrap(), 3);
    assert!(iter.next().is_none());
}

#[test]
fn index_of() {
    let mut list = DlList::new();

    list.push_back(1);
    list.push_back(2);
    list.push_back(1);

    assert_eq!(list.index_of(&1).unwrap(), DlIndex::new(0, 0));
    assert!(list.index_of(&3).is_none());
}

#[test]
fn pop_front() {
    let mut list = DlList::new();

    list.push_back(1);
    list.push_back(2);
    list.push_back(3);

    assert_eq!(list.pop_front().unwrap(), 1);
    assert_eq!(list.pop_front().unwrap(), 2);
    assert_eq!(list.pop_front().unwrap(), 3);

    assert_eq!(
        list.data,
        vec![
            DlEntry::Free { next_free: None },
            DlEntry::Free { next_free: Some(0) },
            DlEntry::Free { next_free: Some(1) },
        ]
    );
    assert_eq!(list.next_free, Some(2));
    assert_eq!(list.head, None);
    assert_eq!(list.tail, None);
    assert_eq!(list.rm_cnt, 3);
}
