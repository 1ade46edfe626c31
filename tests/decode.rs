use blkview::trace::{
    complete_events, parse, sort_by_time, Action, Category, DecodeError, Event, EventPDU, Trace,
    COMPLETE, FUA, ISSUE, QUEUE, READ, RECORD_SIZE, WRITE,
};

fn record(time: u64, sector: u64, bytes: u32, code: u32, category: u16, pdu: &[u8]) -> Vec<u8> {
    let mut b = Vec::new();
    b.extend_from_slice(&0x6561_7400u32.to_le_bytes());
    b.extend_from_slice(&7u32.to_le_bytes());
    b.extend_from_slice(&time.to_le_bytes());
    b.extend_from_slice(&sector.to_le_bytes());
    b.extend_from_slice(&bytes.to_le_bytes());
    b.extend_from_slice(&(code | ((category as u32) << 16)).to_le_bytes());
    b.extend_from_slice(&42u32.to_le_bytes());
    b.extend_from_slice(&8u32.to_le_bytes());
    b.extend_from_slice(&3u32.to_le_bytes());
    b.extend_from_slice(&0u16.to_le_bytes());
    b.extend_from_slice(&(pdu.len() as u16).to_le_bytes());
    b.extend_from_slice(pdu);
    b
}

fn event(time: u64, sector: u64) -> Event {
    Event {
        sequence: 0,
        time,
        sector,
        bytes: 512,
        action: Action::Complete,
        category: Category { bits: READ },
        pid: 0,
        device: 0,
        cpu: 0,
        error: 0,
        pdu: None,
    }
}

#[test]
fn record_size_matches_layout() {
    assert_eq!(record(0, 0, 0, 0, 0, &[]).len(), RECORD_SIZE);
}

#[test]
fn action_codes_decode_to_their_actions() {
    assert_eq!(Action::from_code(0), Some(Action::Other));
    assert_eq!(Action::from_code(1), Some(Action::Queue));
    assert_eq!(Action::from_code(7), Some(Action::Issue));
    assert_eq!(Action::from_code(8), Some(Action::Complete));
    assert_eq!(Action::from_code(17), Some(Action::DrvData));
    assert_eq!(Action::from_code(18), None);
    assert_eq!(Action::from_code(0xffff), None);
}

#[test]
fn category_keeps_only_low_sixteen_bits() {
    let c = Category::from_bits_truncate(0x0003_0081);
    assert_eq!(c.bits, 0x0081);
    assert_eq!(Category::from_bits_truncate(c.bits as u32), c);
    assert!(c.contains(READ | COMPLETE));
    assert!(!c.contains(WRITE));
    assert!(c.intersects(READ | WRITE));
    assert!(!c.intersects(FUA));
    assert_eq!(c.union(Category { bits: WRITE }).bits, 0x0083);
}

#[test]
fn ending_sector_rounds_up() {
    let mut e = event(0, 10);
    e.bytes = 0;
    assert_eq!(e.ending_sector(), 10);
    e.bytes = 1;
    assert_eq!(e.ending_sector(), 11);
    e.bytes = 512;
    assert_eq!(e.ending_sector(), 11);
    e.bytes = 513;
    assert_eq!(e.ending_sector(), 12);
}

#[test]
fn parse_reads_fields_and_payload() {
    let mut b = record(100, 2048, 4096, 8, READ | COMPLETE, &[]);
    b.extend(record(50, 8, 512, 1, WRITE | QUEUE, &[1, 2, 3]));
    let (events, used) = parse(&b).unwrap();
    assert_eq!(used, b.len());
    assert_eq!(events.len(), 2);
    assert_eq!(events[0].sequence, 7);
    assert_eq!(events[0].time, 100);
    assert_eq!(events[0].sector, 2048);
    assert_eq!(events[0].bytes, 4096);
    assert_eq!(events[0].action, Action::Complete);
    assert_eq!(events[0].category.bits, READ | COMPLETE);
    assert_eq!(events[0].pid, 42);
    assert_eq!(events[0].device, 8);
    assert_eq!(events[0].cpu, 3);
    assert_eq!(events[0].pdu, None);
    assert_eq!(events[1].action, Action::Queue);
    assert_eq!(events[1].pdu, Some(EventPDU { data: vec![1, 2, 3] }));
}

#[test]
fn parse_ignores_truncated_tail() {
    let mut b = record(1, 0, 512, 8, READ, &[]);
    b.extend_from_slice(&[0u8; 20]);
    let (events, used) = parse(&b).unwrap();
    assert_eq!(events.len(), 1);
    assert_eq!(used, RECORD_SIZE);
    let mut c = record(1, 0, 512, 8, READ, &[]);
    let short_payload = record(2, 0, 512, 8, READ, &[9; 10]);
    c.extend_from_slice(&short_payload[..RECORD_SIZE + 4]);
    let (events, used) = parse(&c).unwrap();
    assert_eq!(events.len(), 1);
    assert_eq!(used, RECORD_SIZE);
}

#[test]
fn parse_rejects_unknown_action() {
    let mut b = record(1, 0, 512, 8, READ, &[]);
    b.extend(record(2, 0, 512, 18, READ, &[]));
    assert_eq!(parse(&b), Err(DecodeError::InvalidAction(18)));
}

#[test]
fn trace_sorts_events_of_all_buffers_by_time() {
    let mut a = record(30, 1, 512, 8, READ, &[]);
    a.extend(record(10, 2, 512, 8, READ, &[]));
    let b = record(20, 3, 512, 8, WRITE, &[]);
    let trace = Trace::new(vec![a, b]).unwrap();
    let times: Vec<u64> = trace.events.iter().map(|e| e.time).collect();
    assert_eq!(times, vec![10, 20, 30]);
    let sectors: Vec<u64> = trace.events.iter().map(|e| e.sector).collect();
    assert_eq!(sectors, vec![2, 3, 1]);
}

#[test]
fn trace_fails_on_bad_buffer() {
    let a = record(30, 1, 512, 8, READ, &[]);
    let b = record(20, 3, 512, 40, WRITE, &[]);
    assert_eq!(Trace::new(vec![a, b]).err(), Some(DecodeError::InvalidAction(40)));
}

#[test]
fn merge_of_sorted_runs_is_time_ordered() {
    let mut v = vec![event(1, 0), event(4, 1), event(6, 2)];
    v.extend(vec![event(2, 3), event(5, 4), event(7, 5)]);
    let sorted = sort_by_time(v);
    let times: Vec<u64> = sorted.iter().map(|e| e.time).collect();
    assert_eq!(times, vec![1, 2, 4, 5, 6, 7]);
}

#[test]
fn equal_times_keep_both_events() {
    let v = vec![event(9, 100), event(5, 1), event(5, 2)];
    let sorted = sort_by_time(v);
    assert_eq!(sorted.len(), 3);
    assert_eq!(sorted[0].time, 5);
    assert_eq!(sorted[1].time, 5);
    let mut sectors = vec![sorted[0].sector, sorted[1].sector];
    sectors.sort();
    assert_eq!(sectors, vec![1, 2]);
    assert_eq!(sorted[2].sector, 100);
}

#[test]
fn only_completed_reads_and_writes_are_kept() {
    let mut b = record(1, 0, 512, 8, READ, &[]);
    b.extend(record(2, 0, 512, 1, READ, &[]));
    b.extend(record(3, 0, 512, 8, FUA, &[]));
    b.extend(record(4, 0, 512, 8, WRITE | FUA, &[]));
    b.extend(record(5, 0, 512, 7, WRITE, &[]));
    let trace = Trace::new(vec![b]).unwrap();
    let kept = complete_events(trace.events);
    let times: Vec<u64> = kept.iter().map(|e| e.time).collect();
    assert_eq!(times, vec![1, 4]);
}

#[test]
fn queue_and_issue_only_trace_has_nothing_to_draw() {
    let mut b = record(1, 0, 512, 1, READ | QUEUE, &[]);
    b.extend(record(2, 0, 512, 7, READ | ISSUE, &[]));
    let trace = Trace::new(vec![b]).unwrap();
    assert_eq!(trace.events.len(), 2);
    let kept = complete_events(trace.events);
    assert!(kept.is_empty());
    assert_eq!(
        blkview::visualizer::sector_bounds(&kept),
        Err(blkview::visualizer::RenderError::NoEvents)
    );
}
