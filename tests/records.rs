use process_queues::record::{label, Process};
use process_queues::sample::{generate_processes, PRIORITY_END, PRIORITY_MIN, SLEEP_END, SLEEP_MIN};

#[test]
fn label_spells_identifier() {
    assert_eq!(label(0), "Process Node 0");
    assert_eq!(label(12), "Process Node 12");
    assert_eq!(label(2147483647), "Process Node 2147483647");
    assert_eq!(label(-5), "Process Node -5");
}

#[test]
fn new_record_keeps_fields() {
    let p = Process::new(3, 42, 150);
    assert_eq!(p.id, 3);
    assert_eq!(p.priority, 42);
    assert_eq!(p.sleep_time, 150);
    assert_eq!(p.description, "Process Node 3");
}

#[test]
fn line_reports_every_field() {
    let p = Process::new(3, 42, 1999);
    assert_eq!(
        p.line(),
        "Process ID: 3, Priority: 42, Sleep Time: 1999, Description: Process Node 3"
    );
    let q = Process::new(0, 0, 100);
    assert_eq!(q.line(), "Process ID: 0, Priority: 0, Sleep Time: 100, Description: Process Node 0");
}

#[test]
fn generates_requested_number_with_sequential_ids() {
    let records = generate_processes(5);
    assert_eq!(records.len(), 5);
    for (i, p) in records.iter().enumerate() {
        assert_eq!(p.id, i as i32);
        assert_eq!(p.description, format!("Process Node {}", i));
    }
}

#[test]
fn generated_fields_lie_in_ranges() {
    let records = generate_processes(500);
    assert_eq!(records.len(), 500);
    for p in &records {
        assert!(PRIORITY_MIN <= p.priority && p.priority < PRIORITY_END);
        assert!(SLEEP_MIN <= p.sleep_time && p.sleep_time < SLEEP_END);
    }
    assert_eq!((PRIORITY_MIN, PRIORITY_END, SLEEP_MIN, SLEEP_END), (0, 100, 100, 2000));
}

#[test]
fn generated_fields_vary() {
    let records = generate_processes(200);
    assert!(records.iter().any(|p| p.priority != records[0].priority));
    assert!(records.iter().any(|p| p.sleep_time != records[0].sleep_time));
    assert!(records.iter().any(|p| p.priority != PRIORITY_MIN));
    assert!(records.iter().any(|p| p.sleep_time != SLEEP_MIN));
}

#[test]
fn zero_or_negative_count_generates_nothing() {
    assert!(generate_processes(0).is_empty());
    assert!(generate_processes(-3).is_empty());
}
