use tail_list::TailList;
use tail_list::ValRef;

#[test]
fn order_preservation_small() {
    let mut list: TailList<u64> = TailList::new();

    list.push(10);
    list.push(20);
    list.push(30);

    let cursor = list.cursor();
    assert_eq!(cursor.next(&mut list).map(|h| *h.get(&list)), Some(30));
    assert_eq!(cursor.next(&mut list).map(|h| *h.get(&list)), Some(20));
    assert_eq!(cursor.next(&mut list).map(|h| *h.get(&list)), Some(10));
    assert!(cursor.next(&mut list).is_none());
    cursor.dispose(&mut list);
}

#[test]
fn round_trip_insert_before() {
    let mut list: TailList<u64> = TailList::new();

    // List is logically [2, 1, 0] after the pushes.
    list.push(0);
    list.push(1);
    list.push(2);

    let cursor = list.cursor();
    assert_eq!(cursor.next(&mut list).map(|h| *h.get(&list)), Some(2));

    let one = cursor.next(&mut list).unwrap();
    assert_eq!(*one.get(&list), 1);

    // Insert 9 before the node holding 1: the list becomes [2, 9, 1, 0].
    // The insertion lies behind the cursor, so the cursor never sees it.
    one.insert_before(&mut list, 9);

    assert_eq!(cursor.next(&mut list).map(|h| *h.get(&list)), Some(0));
    assert!(cursor.next(&mut list).is_none());
    cursor.dispose(&mut list);

    // A fresh traversal yields 2, 9, 1, 0, with 9 seen exactly once.
    let cursor = list.cursor();
    assert_eq!(cursor.next(&mut list).map(|h| *h.get(&list)), Some(2));
    assert_eq!(cursor.next(&mut list).map(|h| *h.get(&list)), Some(9));
    assert_eq!(cursor.next(&mut list).map(|h| *h.get(&list)), Some(1));
    assert_eq!(cursor.next(&mut list).map(|h| *h.get(&list)), Some(0));
    assert!(cursor.next(&mut list).is_none());
    cursor.dispose(&mut list);
}

#[test]
fn exhaustion_idempotence() {
    let mut list: TailList<u64> = TailList::new();

    let cursor = list.cursor();
    assert!(cursor.next(&mut list).is_none());
    assert!(cursor.next(&mut list).is_none());
    cursor.dispose(&mut list);

    list.push(7);

    let cursor = list.cursor();
    assert_eq!(cursor.next(&mut list).map(|h| *h.get(&list)), Some(7));
    assert!(cursor.next(&mut list).is_none());
    assert!(cursor.next(&mut list).is_none());
    assert!(cursor.next(&mut list).is_none());
    cursor.dispose(&mut list);
}

#[test]
fn removal_shrinks_list() {
    let mut list: TailList<u64> = TailList::new();

    for i in 0u64..4 {
        list.push(i);
    }

    // Remove the most recently returned element (2) mid-traversal.
    let cursor = list.cursor();
    assert_eq!(cursor.next(&mut list).map(|h| *h.get(&list)), Some(3));
    let two = cursor.next(&mut list).unwrap();
    assert_eq!(two.remove(&mut list), 2);
    assert_eq!(cursor.next(&mut list).map(|h| *h.get(&list)), Some(1));
    assert_eq!(cursor.next(&mut list).map(|h| *h.get(&list)), Some(0));
    assert!(cursor.next(&mut list).is_none());
    cursor.dispose(&mut list);

    // A fresh traversal no longer contains 2 and is one element shorter.
    let cursor = list.cursor();
    let mut seen: Vec<u64> = Vec::new();
    while let Some(h) = cursor.next(&mut list) {
        seen.push(*h.get(&list));
    }
    cursor.dispose(&mut list);
    assert_eq!(seen, vec![3, 1, 0]);
}

#[test]
fn split_rejoin() {
    let mut list: TailList<u64> = TailList::new();

    for i in 0u64..4 {
        list.push(i);
    }

    let cursor = list.cursor();
    let head = cursor.next(&mut list).unwrap();
    assert_eq!(*head.get(&list), 3);

    // Draining the tail cursor reproduces what the original cursor would
    // have produced from this point; after both are done, splitting again
    // gives the same sequence once more.
    for _ in 0..2 {
        let tail = head.tail(&mut list);
        assert_eq!(tail.next(&mut list).map(|h| *h.get(&list)), Some(2));
        assert_eq!(tail.next(&mut list).map(|h| *h.get(&list)), Some(1));
        assert_eq!(tail.next(&mut list).map(|h| *h.get(&list)), Some(0));
        assert!(tail.next(&mut list).is_none());
        tail.dispose(&mut list);
    }

    // The original cursor continues unaffected.
    assert_eq!(cursor.next(&mut list).map(|h| *h.get(&list)), Some(2));
    cursor.dispose(&mut list);
}

#[test]
fn insert_after_handle() {
    let mut list: TailList<u64> = TailList::new();

    list.push(1);

    let cursor = list.cursor();
    let one = cursor.next(&mut list).unwrap();
    let five = one.insert_after(&mut list, 5);
    assert_eq!(*five.get(&list), 5);
    // The new node sits between the yielded node and the cursor's
    // sentinel, so this cursor never sees it.
    assert!(cursor.next(&mut list).is_none());
    cursor.dispose(&mut list);

    let cursor = list.cursor();
    assert_eq!(cursor.next(&mut list).map(|h| *h.get(&list)), Some(1));
    assert_eq!(cursor.next(&mut list).map(|h| *h.get(&list)), Some(5));
    assert!(cursor.next(&mut list).is_none());
    cursor.dispose(&mut list);
}

#[test]
fn mixed_remove_and_mark() {
    let mut list: TailList<u64> = TailList::new();
    let mut kept: Vec<ValRef> = Vec::new();

    for i in 0u64..1024 {
        list.push(i);
    }

    // Traverse once, removing odd values and retaining even ones as
    // passive handles.
    let cursor = list.cursor();
    for i in 0u64..1024 {
        let i = 1023 - i;
        let h = cursor.next(&mut list).unwrap();
        if i % 2 == 1 {
            assert_eq!(h.remove(&mut list), i);
        } else {
            kept.push(h.into_passive());
        }
    }
    assert!(cursor.next(&mut list).is_none());
    cursor.dispose(&mut list);

    // A fresh traversal yields exactly the even values in descending order.
    let cursor = list.cursor();
    for i in 0u64..512 {
        let expect = 1022 - 2 * i;
        assert_eq!(cursor.next(&mut list).map(|h| *h.get(&list)), Some(expect));
    }
    assert!(cursor.next(&mut list).is_none());
    cursor.dispose(&mut list);

    // Each retained handle still removes to its original value.
    for (k, h) in kept.into_iter().enumerate() {
        assert_eq!(h.remove(&mut list), 1022 - 2 * (k as u64));
    }

    let cursor = list.cursor();
    assert!(cursor.next(&mut list).is_none());
    cursor.dispose(&mut list);
}
