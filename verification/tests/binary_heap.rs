use heaps::binary::BinaryHeap;

#[test]
fn is_empty_max() {
    let uut = BinaryHeap::<()>::new_max();
    assert!(uut.is_empty());
}

#[test]
fn is_empty_min() {
    let uut = BinaryHeap::<()>::new_min();
    assert!(uut.is_empty());
}

#[test]
fn isnt_empty_max() {
    let mut uut = BinaryHeap::new_max();
    uut.push(1, ()).expect("Push failed");
    assert!(!uut.is_empty());
}

#[test]
fn isnt_empty_min() {
    let mut uut = BinaryHeap::new_min();
    uut.push(1, ()).expect("Push failed");
    assert!(!uut.is_empty());
}

#[test]
fn push_and_pop_min() {
    let mut uut = BinaryHeap::new_min();
    let mut values = [5i64, 3, 2, 4, 1];
    for v in values.iter() {
        uut.push(*v, v.to_string()).expect("Push failed");
    }
    values.sort();
    for v in values.iter() {
        let (key, val) = uut.pop().expect("Out of value");
        assert_eq!(*v, key);
        assert_eq!(v.to_string(), val);
    }
}

#[test]
fn push_and_pop_max() {
    let mut uut = BinaryHeap::new_max();
    let mut values = [5i64, 3, 2, 4, 1];
    for v in values.iter() {
        uut.push(*v, v.to_string()).expect("Push failed");
    }
    values.sort();
    values.reverse();
    for v in values.iter() {
        let (key, val) = uut.pop().expect("Out of value");
        assert_eq!(*v, key);
        assert_eq!(v.to_string(), val);
    }
}

#[test]
fn pop_empty() {
    let mut uut = BinaryHeap::<()>::new_max();
    let got = uut.pop();
    assert!(got.is_none());
}

#[test]
fn peek_some() {
    let mut uut = BinaryHeap::new_max();
    let pairs: Vec<(i64, String)> = (0..10).map(|i| (i, i.to_string())).collect();
    for (k, v) in pairs.iter() {
        uut.push(*k, v.clone()).expect("Push failed");
    }
    let (k, v) = &pairs[9];
    let (key, val) = uut.peek().expect("Expect Some, got None");
    assert_eq!(*k, *key);
    assert_eq!(*v, *val);
}

#[test]
fn peek_empty() {
    let uut = BinaryHeap::<String>::new_max();
    let got = uut.peek();
    assert!(got.is_none());
}

#[test]
fn len_after_push() {
    let mut uut = BinaryHeap::new_max();
    assert_eq!(uut.len(), 0);
    let len: usize = 10;
    for i in 0..len {
        uut.push(i as i64, ()).expect("Push failed");
    }
    assert_eq!(uut.len(), len);
}

#[test]
fn len_after_pop() {
    let mut uut = BinaryHeap::new_max();
    assert_eq!(uut.len(), 0);
    let len: usize = 10;
    for i in 0..len {
        uut.push(i as i64, ()).expect("Push failed");
    }
    for i in 1..=len {
        uut.pop();
        assert_eq!(uut.len(), len - i);
    }
}

#[test]
fn len_empty() {
    let uut = BinaryHeap::<()>::new_max();
    assert_eq!(uut.len(), 0);
}

#[test]
fn peek_tracks_pop_min() {
    let mut uut = BinaryHeap::new_min();
    for (k, v) in [(7i64, "g"), (2, "b"), (9, "i"), (2, "c"), (-4, "a")] {
        uut.push(k, v.to_string()).expect("Push failed");
    }
    while !uut.is_empty() {
        let peeked = {
            let (k, v) = uut.peek().expect("peek on non-empty heap");
            (*k, v.clone())
        };
        let popped = uut.pop().expect("pop on non-empty heap");
        assert_eq!(peeked, popped);
    }
    assert!(uut.peek().is_none());
}
