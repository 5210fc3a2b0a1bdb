use process_queues::demo::{drain_heap, drain_queue, fill_heap, fill_queue, run, SizeMismatch};
use process_queues::min_heap::MinHeap;
use process_queues::record::Process;

fn sample_records() -> Vec<Process> {
    vec![
        Process::new(0, 50, 100),
        Process::new(1, 10, 200),
        Process::new(2, 99, 300),
        Process::new(3, 10, 400),
        Process::new(4, 0, 500),
    ]
}

#[test]
fn heap_pops_least_priority_first() {
    let mut h = MinHeap::new();
    for (p, s) in [(5, 0), (3, 1), (8, 2), (1, 3), (9, 4), (3, 5), (0, 6)] {
        h.push(p, s);
    }
    assert_eq!(h.len(), 7);
    let mut priorities = Vec::new();
    while let Some((p, _)) = h.pop() {
        priorities.push(p);
    }
    assert_eq!(priorities, vec![0, 1, 3, 3, 5, 8, 9]);
    assert_eq!(h.len(), 0);
}

#[test]
fn empty_heap_pops_nothing() {
    let mut h = MinHeap::new();
    assert_eq!(h.len(), 0);
    assert_eq!(h.pop(), None);
}

#[test]
fn heap_keeps_equal_entries() {
    let mut h = MinHeap::new();
    h.push(7, 1);
    h.push(7, 1);
    h.push(7, 2);
    assert_eq!(h.len(), 3);
    let mut slots = Vec::new();
    while let Some((p, s)) = h.pop() {
        assert_eq!(p, 7);
        slots.push(s);
    }
    slots.sort();
    assert_eq!(slots, vec![1, 1, 2]);
}

#[test]
fn queue_drains_in_insertion_order() {
    let records = sample_records();
    let mut q = fill_queue(&records);
    assert_eq!(q.len(), 5);
    assert_eq!(drain_queue(&mut q), vec![0, 1, 2, 3, 4]);
    assert!(q.is_empty());
}

#[test]
fn heap_drains_in_priority_order() {
    let records = sample_records();
    let mut h = fill_heap(&records);
    assert_eq!(h.len(), 5);
    let drained = drain_heap(&mut h);
    let priorities: Vec<i32> = drained.iter().map(|e| e.0).collect();
    assert_eq!(priorities, vec![0, 10, 10, 50, 99]);
    assert_eq!(drained[0], (0, 4));
    assert_eq!(drained[3], (50, 0));
    assert_eq!(drained[4], (99, 2));
    let mut ties: Vec<usize> = vec![drained[1].1, drained[2].1];
    ties.sort();
    assert_eq!(ties, vec![1, 3]);
    assert_eq!(h.len(), 0);
}

#[test]
fn run_with_five_records() {
    let d = run(5).unwrap();
    assert_eq!(d.records.len(), 5);
    assert_eq!(d.queue_len, 5);
    assert_eq!(d.heap_len, 5);
    assert_eq!(d.queue_order, vec![0, 1, 2, 3, 4]);
    let ids: Vec<i32> = d.queue_order.iter().map(|&s| d.records[s].id).collect();
    assert_eq!(ids, vec![0, 1, 2, 3, 4]);
    let mut seen = d.heap_order.clone();
    seen.sort();
    assert_eq!(seen, vec![0, 1, 2, 3, 4]);
    for w in d.heap_order.windows(2) {
        assert!(d.records[w[0]].priority <= d.records[w[1]].priority);
    }
}

#[test]
fn run_with_zero_records() {
    let d = run(0).unwrap();
    assert_eq!(d.records.len(), 0);
    assert_eq!(d.queue_len, 0);
    assert_eq!(d.heap_len, 0);
    assert!(d.queue_order.is_empty());
    assert!(d.heap_order.is_empty());
}

#[test]
fn run_with_negative_count_is_empty_not_error() {
    let d = run(-4).unwrap();
    assert_eq!((d.queue_len, d.heap_len), (0, 0));
    assert!(d.queue_order.is_empty() && d.heap_order.is_empty());
}

#[test]
fn run_sizes_match_for_many_counts() {
    for n in [1, 2, 3, 17, 100] {
        let d = run(n).unwrap();
        assert_eq!(d.queue_len, n as usize);
        assert_eq!(d.heap_len, n as usize);
        assert_eq!(d.heap_order.len(), n as usize);
        for w in d.heap_order.windows(2) {
            assert!(d.records[w[0]].priority <= d.records[w[1]].priority);
        }
    }
    assert_ne!(SizeMismatch::Heap, SizeMismatch::Queue);
}
