use sortvis::bubblesort::bubblesort;
use sortvis::insertionsort::insertionsort;
use sortvis::list::{BasicList, List, Operation, RecordingList, replay};
use sortvis::quicksort::quicksort;
use sortvis::quicksort2::quicksort2;
use sortvis::selectionsort::selectionsort;
use sortvis::shellsort::{gaps_sequence, shellsort};

#[test]
fn test() {
    let mut test_slice: Vec<u32> = vec![1, 4, 123, 7, 8, 4, 2, 4, 57, 8, 324, 213];
    let test_slice2 = test_slice.clone();
    let mut list = BasicList::new(test_slice2);
    assert_eq!(test_slice, list.slice);
    test_slice.sort_unstable();
    bubblesort(&mut list);
    assert_eq!(test_slice, list.slice);
    println!("{:?}", list.slice);
}

#[test]
fn test_bubblesort() {
    let mut test_slice: Vec<u32> = vec![1, 4, 123, 7, 8, 4, 2, 4, 57, 8, 324, 213];
    let test_slice2 = test_slice.clone();
    assert_eq!(test_slice, test_slice2);
    test_slice.sort_unstable();
    let mut list = BasicList::new(test_slice2);
    bubblesort(&mut list);
    assert_eq!(test_slice, list.slice);
    println!("{:?}", list.slice);
}

#[test]
fn test_insertionsort() {
    let mut test_slice: Vec<u32> = vec![1, 4, 123, 7, 8, 4, 8, 8, 2, 4, 57, 8, 324, 213];
    let test_slice2 = test_slice.clone();
    assert_eq!(test_slice, test_slice2);
    test_slice.sort_unstable();
    let mut list = BasicList::new(test_slice2);
    insertionsort(&mut list);
    assert_eq!(test_slice, list.slice);
    println!("{:?}", list.slice);
}

#[test]
fn test_selectionsort() {
    let mut test_slice: Vec<u32> = vec![1, 4, 123, 7, 8, 4, 8, 8, 2, 4, 57, 8, 324, 213];
    let test_slice2 = test_slice.clone();
    assert_eq!(test_slice, test_slice2);
    test_slice.sort_unstable();
    let mut list = BasicList::new(test_slice2);
    selectionsort(&mut list);
    assert_eq!(test_slice, list.slice);
    println!("{:?}", list.slice);
}

#[test]
fn test_quicksort() {
    let mut test_slice: Vec<u32> = vec![1, 4, 123, 7, 8, 4, 2, 4, 57, 8, 324, 213];
    let test_slice2 = test_slice.clone();
    assert_eq!(test_slice, test_slice2);
    test_slice.sort_unstable();
    let mut list = BasicList::new(test_slice2);
    quicksort(&mut list);
    assert_eq!(test_slice, list.slice);
    println!("{:?}", list.slice);
}

#[test]
fn test_quicksort2() {
    let mut test_slice: Vec<u32> = vec![1, 4, 123, 7, 8, 4, 8, 8, 2, 4, 57, 8, 324, 213];
    let test_slice2 = test_slice.clone();
    assert_eq!(test_slice, test_slice2);
    test_slice.sort_unstable();
    let mut list = BasicList::new(test_slice2);
    quicksort2(&mut list);
    assert_eq!(test_slice, list.slice);
    println!("{:?}", list.slice);
}

#[test]
fn test_shellsort() {
    let mut test_slice: Vec<u32> = vec![1, 4, 123, 7, 8, 4, 8, 8, 2, 4, 57, 8, 324, 213];
    let test_slice2 = test_slice.clone();
    assert_eq!(test_slice, test_slice2);
    test_slice.sort_unstable();
    let mut list = BasicList::new(test_slice2);
    shellsort(&mut list);
    assert_eq!(test_slice, list.slice);
    println!("{:?}", list.slice);
}

#[test]
fn test_tokuda_sequence() {
    let expected: Vec<usize> = vec![1, 4, 9, 20, 46, 103, 233, 525, 1182, 2660, 5985, 13467];
    let mut actual = gaps_sequence(*expected.last().unwrap_or(&0));
    actual.reverse();
    assert_eq!(expected, actual);
}

#[test]
fn gaps_descending_to_one() {
    assert_eq!(gaps_sequence(20), vec![20, 9, 4, 1]);
    assert_eq!(gaps_sequence(0), Vec::<usize>::new());
    assert_eq!(gaps_sequence(1), vec![1]);
    assert_eq!(gaps_sequence(3), vec![1]);
}

#[test]
fn sorts_handle_edge_inputs() {
    let empty: Vec<u32> = vec![];
    let mut list = BasicList::new(empty);
    bubblesort(&mut list);
    assert_eq!(list.slice, Vec::<u32>::new());
    let mut list = BasicList::new(vec![7]);
    quicksort(&mut list);
    assert_eq!(list.slice, vec![7]);
    let mut list = BasicList::new(vec![5, 5, 5, 5]);
    insertionsort(&mut list);
    assert_eq!(list.slice, vec![5, 5, 5, 5]);
    let mut list = BasicList::new(vec![1, 2, 3, 4]);
    selectionsort(&mut list);
    assert_eq!(list.slice, vec![1, 2, 3, 4]);
    let mut list = BasicList::new(vec![4, 3, 2, 1]);
    shellsort(&mut list);
    assert_eq!(list.slice, vec![1, 2, 3, 4]);
    let mut list = BasicList::new(vec![9, 9, 1, 1, 9]);
    quicksort2(&mut list);
    assert_eq!(list.slice, vec![1, 1, 9, 9, 9]);
}

#[test]
fn bubblesort_golden_trace() {
    let mut list = RecordingList::new(vec![5, 3, 1, 4, 2]);
    bubblesort(&mut list);
    assert_eq!(list.data, vec![1, 2, 3, 4, 5]);
    let expected = vec![
        Operation::Compare(0, 1),
        Operation::Swap(0, 1),
        Operation::Compare(1, 2),
        Operation::Swap(1, 2),
        Operation::Compare(2, 3),
        Operation::Swap(2, 3),
        Operation::Compare(3, 4),
        Operation::Swap(3, 4),
        Operation::Compare(0, 1),
        Operation::Swap(0, 1),
        Operation::Compare(1, 2),
        Operation::Compare(2, 3),
        Operation::Swap(2, 3),
        Operation::Compare(0, 1),
        Operation::Compare(1, 2),
        Operation::Swap(1, 2),
        Operation::Compare(0, 1),
    ];
    assert_eq!(list.log, expected);
    let compares = list
        .log
        .iter()
        .filter(|op| matches!(op, Operation::Compare(_, _)))
        .count();
    let swaps = list.log.iter().filter(|op| matches!(op, Operation::Swap(_, _))).count();
    assert_eq!(compares, 10);
    assert_eq!(swaps, 7);
}

#[test]
fn recorder_replay_reproduces_run() {
    let initial: Vec<u32> = vec![8, 1, 9, 2, 7, 3, 6, 4, 5, 0];
    let mut list = RecordingList::new(initial.clone());
    quicksort2(&mut list);
    let replayed = replay(initial.clone(), &list.log);
    assert_eq!(replayed, list.data);

    let mut list = RecordingList::new(initial.clone());
    shellsort(&mut list);
    let replayed = replay(initial, &list.log);
    assert_eq!(replayed, list.data);
}

#[test]
fn replay_applies_writes_and_swaps() {
    let ops = vec![
        Operation::Get(0),
        Operation::Write(1, 42),
        Operation::Compare(0, 2),
        Operation::Swap(0, 2),
    ];
    let out = replay(vec![10, 20, 30], &ops);
    assert_eq!(out, vec![30, 42, 10]);
}

struct CollectingObserver {
    seen: Vec<(Operation, Vec<u32>)>,
}

impl sortvis::list::OperationObserver for CollectingObserver {
    fn notify(&mut self, op: Operation, values: &Vec<u32>) {
        self.seen.push((op, values.clone()));
    }
}

#[test]
fn list_operations_are_logged() {
    let mut list = RecordingList::new(vec![4, 6]);
    assert_eq!(list.len(), 2);
    assert!(!list.is_empty());
    assert_eq!(list.get(0), 4);
    list.set(1, 9);
    assert_eq!(list.compare(0, 1), std::cmp::Ordering::Less);
    list.swap(0, 1);
    assert_eq!(list.data, vec![9, 4]);
    assert_eq!(
        list.log,
        vec![
            Operation::Get(0),
            Operation::Write(1, 9),
            Operation::Compare(0, 1),
            Operation::Swap(0, 1)
        ]
    );
}

#[test]
fn callback_list_notifies_observer() {
    let observer = CollectingObserver { seen: vec![] };
    let mut list = sortvis::list::CallbackList::new(vec![3, 1], observer);
    bubblesort(&mut list);
    let (data, observer) = list.into_parts();
    assert_eq!(data, vec![1, 3]);
    // each operation is observed together with the values as they stood
    // right after it
    assert_eq!(
        observer.seen,
        vec![
            (Operation::Compare(0, 1), vec![3, 1]),
            (Operation::Swap(0, 1), vec![1, 3])
        ]
    );
}
