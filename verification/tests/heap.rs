use pkgrank::heap::{left_child_idx, parent_idx, right_child_idx, EmptyHeapError, MinHeap};
use pkgrank::pkg::Pkg;

fn is_heap(items: &[i32]) -> bool {
    (1..items.len()).all(|i| items[(i - 1) / 2] <= items[i])
}

#[test]
fn test_hpush() {
    // create new heap
    let mut heap = MinHeap::new();

    heap.hpush(3);
    heap.hpush(2);
    heap.hpush(1);

    assert_eq!(vec![1, 3, 2], heap.as_slice());
}

#[test]
fn test_hpop() {
    // create new heap
    let mut heap = MinHeap::new();

    heap.hpush(7);
    println!("{:?}", heap.as_slice());
    heap.hpush(6);
    println!("{:?}", heap.as_slice());
    heap.hpush(5);
    println!("{:?}", heap.as_slice());
    heap.hpush(4);
    println!("{:?}", heap.as_slice());
    heap.hpush(3);
    println!("{:?}", heap.as_slice());
    heap.hpush(2);
    println!("{:?}", heap.as_slice());
    heap.hpush(1);
    println!("{:?}", heap.as_slice());

    assert_eq!(Ok(1), heap.hpop());
    println!("{:?}", heap.as_slice());
    assert_eq!(Ok(2), heap.hpop());
    println!("{:?}", heap.as_slice());
    assert_eq!(Ok(3), heap.hpop());
    println!("{:?}", heap.as_slice());
    assert_eq!(Ok(4), heap.hpop());
    println!("{:?}", heap.as_slice());
    assert_eq!(Ok(5), heap.hpop());
    println!("{:?}", heap.as_slice());
    assert_eq!(Ok(6), heap.hpop());
    println!("{:?}", heap.as_slice());
    assert_eq!(Ok(7), heap.hpop());
    println!("{:?}", heap.as_slice());
}

#[test]
fn new_heap_is_empty() {
    let heap: MinHeap<i32> = MinHeap::new();
    assert_eq!(heap.len(), 0);
    assert!(heap.as_slice().is_empty());
    assert_eq!(heap.peek(), None);
}

#[test]
fn pop_from_new_heap_fails() {
    let mut heap: MinHeap<i32> = MinHeap::new();
    assert_eq!(heap.hpop(), Err(EmptyHeapError));
    assert_eq!(heap.len(), 0);
}

#[test]
fn pop_after_last_item_fails() {
    let mut heap = MinHeap::new();
    heap.hpush(4);
    assert_eq!(heap.hpop(), Ok(4));
    assert_eq!(heap.hpop(), Err(EmptyHeapError));
    assert_eq!(heap.hpop(), Err(EmptyHeapError));
    heap.hpush(9);
    assert_eq!(heap.hpop(), Ok(9));
}

#[test]
fn index_arithmetic() {
    assert_eq!(parent_idx(1), 0);
    assert_eq!(parent_idx(2), 0);
    assert_eq!(parent_idx(3), 1);
    assert_eq!(parent_idx(4), 1);
    assert_eq!(parent_idx(6), 2);
    assert_eq!(left_child_idx(0), 1);
    assert_eq!(right_child_idx(0), 2);
    assert_eq!(left_child_idx(3), 7);
    assert_eq!(right_child_idx(3), 8);
}

#[test]
fn push_layouts_in_level_order() {
    let mut heap = MinHeap::new();
    let expected: Vec<Vec<i32>> = vec![
        vec![7],
        vec![6, 7],
        vec![5, 7, 6],
        vec![4, 5, 6, 7],
        vec![3, 4, 6, 7, 5],
        vec![2, 4, 3, 7, 5, 6],
        vec![1, 4, 2, 7, 5, 6, 3],
    ];
    for (step, value) in [7, 6, 5, 4, 3, 2, 1].into_iter().enumerate() {
        heap.hpush(value);
        assert_eq!(heap.as_slice(), expected[step].as_slice());
    }
}

#[test]
fn pop_layouts_in_level_order() {
    let mut heap = MinHeap::new();
    for value in [7, 6, 5, 4, 3, 2, 1] {
        heap.hpush(value);
    }
    assert_eq!(heap.hpop(), Ok(1));
    assert_eq!(heap.as_slice(), [2, 4, 3, 7, 5, 6].as_slice());
    assert_eq!(heap.hpop(), Ok(2));
    assert_eq!(heap.as_slice(), [3, 4, 6, 7, 5].as_slice());
    assert_eq!(heap.hpop(), Ok(3));
    assert_eq!(heap.as_slice(), [4, 5, 6, 7].as_slice());
    assert_eq!(heap.hpop(), Ok(4));
    assert_eq!(heap.as_slice(), [5, 7, 6].as_slice());
}

#[test]
fn push_does_not_pass_an_equal_parent() {
    let mut heap = MinHeap::new();
    heap.hpush(Pkg { full_name: "first".to_string(), dist: 1 });
    heap.hpush(Pkg { full_name: "second".to_string(), dist: 1 });
    heap.hpush(Pkg { full_name: "third".to_string(), dist: 1 });
    let names: Vec<&str> = heap.as_slice().iter().map(|p| p.full_name.as_str()).collect();
    assert_eq!(names, vec!["first", "second", "third"]);
}

#[test]
fn sinking_item_prefers_left_child_on_a_tie() {
    let mut heap = MinHeap::new();
    heap.hpush(Pkg { full_name: "root".to_string(), dist: 0 });
    heap.hpush(Pkg { full_name: "left".to_string(), dist: 1 });
    heap.hpush(Pkg { full_name: "right".to_string(), dist: 1 });
    heap.hpush(Pkg { full_name: "last".to_string(), dist: 5 });
    assert_eq!(heap.hpop().unwrap().full_name, "root");
    let names: Vec<&str> = heap.as_slice().iter().map(|p| p.full_name.as_str()).collect();
    assert_eq!(names, vec!["left", "last", "right"]);
}

#[test]
fn sinking_item_changes_places_with_an_equal_child() {
    let mut heap = MinHeap::new();
    heap.hpush(Pkg { full_name: "root".to_string(), dist: 0 });
    heap.hpush(Pkg { full_name: "left".to_string(), dist: 2 });
    heap.hpush(Pkg { full_name: "right".to_string(), dist: 3 });
    heap.hpush(Pkg { full_name: "last".to_string(), dist: 2 });
    assert_eq!(heap.hpop().unwrap().full_name, "root");
    let names: Vec<&str> = heap.as_slice().iter().map(|p| p.full_name.as_str()).collect();
    assert_eq!(names, vec!["left", "last", "right"]);
}

#[test]
fn sinking_item_takes_the_smaller_right_child() {
    let mut heap = MinHeap::new();
    for value in [1, 5, 3, 9] {
        heap.hpush(value);
    }
    assert_eq!(heap.as_slice(), [1, 5, 3, 9].as_slice());
    assert_eq!(heap.hpop(), Ok(1));
    assert_eq!(heap.as_slice(), [3, 5, 9].as_slice());
}

#[test]
fn heap_invariant_after_every_call() {
    let mut heap = MinHeap::new();
    let mut seed: u32 = 12345;
    for step in 0..400 {
        seed = seed.wrapping_mul(1664525).wrapping_add(1013904223);
        if step % 3 == 2 {
            let least = heap.as_slice().iter().min().copied();
            assert_eq!(heap.hpop().ok(), least);
        } else {
            heap.hpush((seed >> 16) as i32 % 50);
        }
        assert!(is_heap(heap.as_slice()));
    }
}

#[test]
fn sorted_extraction_with_repeats() {
    let items = vec![5, 1, 4, 1, 5, 9, 2, 6, 5, 3, 5, 8, 9, 7, 9, 3, 2, 3, 8, 4];
    let mut heap = MinHeap::new();
    for item in items.iter() {
        heap.hpush(*item);
    }
    let mut out = Vec::new();
    while let Ok(item) = heap.hpop() {
        out.push(item);
    }
    let mut sorted = items.clone();
    sorted.sort();
    assert_eq!(out, sorted);
}

#[test]
fn size_accounting() {
    let mut heap = MinHeap::new();
    for k in 0..10 {
        heap.hpush(10 - k);
        assert_eq!(heap.len(), (k + 1) as usize);
    }
    for j in 0..4 {
        assert!(heap.hpop().is_ok());
        assert_eq!(heap.len(), (10 - (j + 1)) as usize);
    }
    heap.hpush(0);
    heap.hpush(100);
    assert_eq!(heap.len(), 8);
}

#[test]
fn peek_is_idempotent() {
    let mut heap = MinHeap::new();
    for value in [8, 3, 5] {
        heap.hpush(value);
    }
    for _ in 0..5 {
        assert_eq!(heap.peek(), Some(&3));
        assert_eq!(heap.len(), 3);
    }
    assert_eq!(heap.as_slice(), [3, 8, 5].as_slice());
    assert_eq!(heap.hpop(), Ok(3));
    assert_eq!(heap.peek(), Some(&5));
}
