use tail_list::TailList;
use tail_list::ValRef;

#[test]
fn fill_and_drop() {
    let mut list: TailList<u64> = TailList::new();

    for i in 0u64..2048 {
        list.push(i);
    }

    drop(list);
}

#[test]
fn fill_and_iter() {
    let mut list: TailList<u64> = TailList::new();

    for i in 0u64..2048 {
        list.push(i);
    }

    let cursor = list.cursor();

    for i in 0u64..2048 {
        let i = 2047 - i;

        assert_eq!(cursor.next(&mut list).map(|h| *h.get(&list)), Some(i));
    }

    assert!(cursor.next(&mut list).is_none());
    cursor.dispose(&mut list);
}

#[test]
fn iter_insert() {
    let mut list: TailList<u64> = TailList::new();

    for i in 0u64..1024 {
        list.push(i);
    }

    {
        let cursor = list.cursor();

        for i in 0u64..1024 {
            let i = 1023 - i;

            cursor.next(&mut list).unwrap().insert_before(&mut list, i);
        }

        assert!(cursor.next(&mut list).is_none());
        cursor.dispose(&mut list);
    }

    let cursor = list.cursor();

    for i in 0u64..1024 {
        let i = 1023 - i;

        assert_eq!(cursor.next(&mut list).map(|h| *h.get(&list)), Some(i));
        assert_eq!(cursor.next(&mut list).map(|h| *h.get(&list)), Some(i));
    }

    assert!(cursor.next(&mut list).is_none());
    cursor.dispose(&mut list);
}

#[test]
fn iter_tail() {
    let mut list: TailList<u64> = TailList::new();

    for i in 0u64..512 {
        list.push(i);
    }

    let cursor = list.cursor();

    for i in 0u64..512 {
        let next = cursor.next(&mut list).unwrap();
        let tail = next.tail(&mut list);

        assert_eq!(*next.get(&list), 511 - i);

        for j in i + 1..512 {
            assert_eq!(tail.next(&mut list).map(|h| *h.get(&list)), Some(511 - j));
        }

        assert!(tail.next(&mut list).is_none());

        assert_eq!(*next.get(&list), 511 - i);
        tail.dispose(&mut list);
    }

    cursor.dispose(&mut list);
}

#[test]
fn iter_into_tail() {
    let mut list: TailList<u64> = TailList::new();

    for i in 0u64..512 {
        list.push(i);
    }

    let cursor = list.cursor();

    for i in 0u64..512 {
        let next = cursor.next(&mut list).unwrap();
        let (next, tail) = next.into_tail(&mut list);

        assert_eq!(*next.get(&list), 511 - i);

        for j in i + 1..512 {
            assert_eq!(tail.next(&mut list).map(|h| *h.get(&list)), Some(511 - j));
        }

        assert!(tail.next(&mut list).is_none());

        assert_eq!(*next.get(&list), 511 - i);
        tail.dispose(&mut list);
    }

    cursor.dispose(&mut list);
}

#[test]
fn remove_all_iter() {
    let mut list: TailList<u64> = TailList::new();

    for i in 0u64..1024 {
        list.push(i);
    }

    {
        let cursor = list.cursor();

        for i in 0u64..1024 {
            let i = 1023 - i;

            assert_eq!(cursor.next(&mut list).unwrap().remove(&mut list), i);
        }

        assert!(cursor.next(&mut list).is_none());
        cursor.dispose(&mut list);
    }

    let cursor = list.cursor();
    assert!(cursor.next(&mut list).is_none());
    cursor.dispose(&mut list);
}

#[test]
fn mark_all() {
    let mut list: TailList<u64> = TailList::new();

    {
        let mut vec: Vec<ValRef> = Vec::with_capacity(1024);

        for i in 0u64..1024 {
            list.push(i);
        }

        {
            let cursor = list.cursor();

            for _ in 0u64..1024 {
                vec.push(cursor.next(&mut list).unwrap().into_passive());
            }

            assert!(cursor.next(&mut list).is_none());
            cursor.dispose(&mut list);
        }

        for i in 0u64..1024 {
            assert_eq!(vec.remove((1023 - i) as usize).remove(&mut list), i);
        }
    }

    let cursor = list.cursor();
    assert!(cursor.next(&mut list).is_none());
    cursor.dispose(&mut list);
}

#[test]
fn remove_mark_alternate() {
    let mut list: TailList<u64> = TailList::new();
    let mut vec: Vec<ValRef> = Vec::with_capacity(512);

    for i in 0u64..1024 {
        list.push(i);
    }

    {
        let cursor = list.cursor();

        for i in 0u64..1024 {
            let i = 1023 - i;

            if i % 2 == 0 {
                vec.push(cursor.next(&mut list).unwrap().into_passive());
            } else {
                assert_eq!(cursor.next(&mut list).unwrap().remove(&mut list), i);
            }
        }

        cursor.dispose(&mut list);
    }

    for i in 0u64..512 {
        assert_eq!(vec.remove((511 - i) as usize).remove(&mut list), 2 * i);
    }
}

#[test]
fn remove_tail() {
    let mut list: TailList<u64> = TailList::new();

    list.push(0);
    list.push(1);

    let cursor = list.cursor();

    {
        let next = cursor.next(&mut list).unwrap();
        let tail = next.tail(&mut list);

        assert!(tail.next(&mut list).unwrap().remove(&mut list) == 0);
        tail.dispose(&mut list);
    }

    assert!(cursor.next(&mut list).is_none());
    cursor.dispose(&mut list);
}
