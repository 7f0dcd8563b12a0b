use heaps::binomial::{log2, BinomialHeap};

#[test]
fn log2_test() {
    let v = 1025;
    assert_eq!(10, log2(v));
}

#[test]
fn lib_is_empty_max() {
    let uut = BinomialHeap::<()>::new_max();
    assert!(uut.is_empty());
}

#[test]
fn lib_is_empty_min() {
    let uut = BinomialHeap::<()>::new_min();
    assert!(uut.is_empty());
}

#[test]
fn lib_isnt_empty_max() {
    let mut uut = BinomialHeap::new_max();
    uut.push(1, ()).expect("Push failed");
    assert!(!uut.is_empty());
}

#[test]
fn lib_isnt_empty_min() {
    let mut uut = BinomialHeap::new_min();
    uut.push(1, ()).expect("Push failed");
    assert!(!uut.is_empty());
}

#[test]
fn lib_push_and_pop_min() {
    let mut uut = BinomialHeap::new_min();
    let mut values = [5i64, 3, 2, 4, 1];
    for v in values.iter() {
        uut.push(*v, v.to_string()).expect("Push failed");
    }
    values.sort();
    for v in values.iter() {
        let (key, val) = uut.pop().expect("Out of value");
        assert_eq!(*v, key);
        assert_eq!(v.to_string(), val);
    }
}

#[test]
fn lib_push_and_pop_max() {
    let mut uut = BinomialHeap::new_max();
    let mut values = [5i64, 3, 2, 4, 1];
    for v in values.iter() {
        uut.push(*v, v.to_string()).expect("Push failed");
    }
    values.sort();
    values.reverse();
    for v in values.iter() {
        let (key, val) = uut.pop().expect("Out of value");
        assert_eq!(*v, key);
        assert_eq!(v.to_string(), val);
    }
}

#[test]
fn lib_pop_empty() {
    let mut uut = BinomialHeap::<()>::new_max();
    let got = uut.pop();
    assert!(got.is_none());
}

#[test]
fn repeat_key() {
    let mut uut = BinomialHeap::new_max();
    let pair: Vec<(i64, String)> = [(1i64, "key1"), (1, "key2"), (2, "key3"), (2, "key4")]
        .iter()
        .map(|(i, s)| (*i, (*s).to_string()))
        .collect();
    for (k, v) in pair.iter() {
        uut.push(*k, v.clone()).expect("Push failed");
    }
    let mut got = vec![];
    while !uut.is_empty() {
        got.push(uut.pop().unwrap());
    }
    assert!(pair.iter().all(|p| got.contains(p)));
}

#[test]
fn lib_peek_some() {
    let mut uut = BinomialHeap::new_max();
    let pairs: Vec<(i64, String)> = (0..10).map(|i| (i, i.to_string())).collect();
    for (k, v) in pairs.iter() {
        uut.push(*k, v.clone()).expect("Push failed");
    }
    let (k, v) = &pairs[9];
    let (key, val) = uut.peek().expect("Expect Some, got None");
    assert_eq!(*k, *key);
    assert_eq!(*v, *val);
}

#[test]
fn lib_peek_empty() {
    let uut = BinomialHeap::<String>::new_max();
    let got = uut.peek();
    assert!(got.is_none());
}

#[test]
fn lib_len_after_push() {
    let mut uut = BinomialHeap::new_max();
    assert_eq!(uut.len(), 0);
    let len: usize = 10;
    for i in 0..len {
        uut.push(i as i64, ()).expect("Push failed");
    }
    assert_eq!(uut.len(), len);
}

#[test]
fn lib_len_after_pop() {
    let mut uut = BinomialHeap::new_max();
    assert_eq!(uut.len(), 0);
    let len: usize = 10;
    for i in 0..len {
        uut.push(i as i64, ()).expect("Push failed");
    }
    for i in 1..=len {
        uut.pop();
        assert_eq!(uut.len(), len - i);
    }
}

#[test]
fn lib_len_empty() {
    let uut = BinomialHeap::<()>::new_max();
    assert_eq!(uut.len(), 0);
}

#[test]
fn lib_peek_tracks_pop_min() {
    let mut uut = BinomialHeap::new_min();
    for (k, v) in [(7i64, "g"), (2, "b"), (9, "i"), (2, "c"), (-4, "a")] {
        uut.push(k, v.to_string()).expect("Push failed");
    }
    while !uut.is_empty() {
        let peeked = {
            let (k, v) = uut.peek().expect("peek on non-empty heap");
            (*k, v.clone())
        };
        let popped = uut.pop().expect("pop on non-empty heap");
        assert_eq!(peeked, popped);
    }
    assert!(uut.peek().is_none());
}

#[test]
fn lib_interleaved_push_pop() {
    let mut uut = BinomialHeap::new_min();
    for k in [8i64, 3, 5] {
        uut.push(k, k).expect("Push failed");
    }
    assert_eq!(uut.pop(), Some((3, 3)));
    for k in [1i64, 9, 2] {
        uut.push(k, k).expect("Push failed");
    }
    assert_eq!(uut.pop(), Some((1, 1)));
    assert_eq!(uut.pop(), Some((2, 2)));
    assert_eq!(uut.pop(), Some((5, 5)));
    assert_eq!(uut.pop(), Some((8, 8)));
    assert_eq!(uut.pop(), Some((9, 9)));
    assert_eq!(uut.pop(), None);
}

#[test]
fn modify_key() {
    let mut uut = BinomialHeap::new_min();
    let mut list: Vec<(i64, String)> = (0..10).map(|i| (i, i.to_string())).collect();
    for (k, v) in list.iter() {
        uut.push(*k, v.clone()).expect("Push failed");
    }
    let mut cnt = 10;
    for (k, v) in list.iter_mut() {
        let _ = uut.modify_key(k, v, cnt);
        *k = cnt;
        cnt -= 1;
    }
    list.sort_by_key(|(k, _)| *k);
    for (k, v) in list {
        let (key, val) = uut.pop().unwrap();
        assert_eq!(k, key);
        assert_eq!(v, val);
    }
}

#[test]
fn modify_key_decrease() {
    let mut uut = BinomialHeap::new_min();
    for (k, v) in [(4i64, "d"), (2, "b"), (7, "g")] {
        uut.push(k, v.to_string()).expect("Push failed");
    }
    uut.modify_key(&7, &"g".to_string(), 1).expect("modify_key failed");
    assert_eq!(uut.pop(), Some((1, "g".to_string())));
    assert_eq!(uut.pop(), Some((2, "b".to_string())));
    assert_eq!(uut.pop(), Some((4, "d".to_string())));
    assert_eq!(uut.pop(), None);
}

#[test]
fn modify_key_missing() {
    let mut uut = BinomialHeap::new_min();
    uut.push(3, "c".to_string()).expect("Push failed");
    assert!(uut.modify_key(&3, &"x".to_string(), 1).is_err());
    assert!(uut.modify_key(&5, &"c".to_string(), 1).is_err());
    assert_eq!(uut.len(), 1);
    assert_eq!(uut.pop(), Some((3, "c".to_string())));
}
