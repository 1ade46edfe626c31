use blkview::trace::{Action, Category, Event, READ, WRITE};
use blkview::visualizer::{
    chunk_bounds, sector_bounds, RenderError, Visualizer, IDLE_SHADE, READ_SHADE, WRITE_SHADE,
};

fn event(sector: u64, bytes: u32, category: u16) -> Event {
    Event {
        sequence: 0,
        time: 0,
        sector,
        bytes,
        action: Action::Complete,
        category: Category { bits: category },
        pid: 0,
        device: 0,
        cpu: 0,
        error: 0,
        pdu: None,
    }
}

#[test]
fn three_records_map_to_distinct_pixels() {
    let v = Visualizer::new(0, 200, 200, 200);
    let r0 = v.event_to_range(&event(0, 0, READ));
    let r1 = v.event_to_range(&event(100, 0, READ));
    let r2 = v.event_to_range(&event(200, 0, READ));
    assert_eq!(r0, (0, 199));
    assert_eq!(r1, (19999, 20199));
    assert_eq!(r2, (39999, 40000));
    assert!(r0.1 <= r1.0 && r1.1 <= r2.0);
}

#[test]
fn range_is_never_empty() {
    let v = Visualizer::new(0, 1_000_000, 10, 10);
    let r = v.event_to_range(&event(500_000, 512, WRITE));
    assert_eq!(r, (49, 50));
}

#[test]
fn single_sector_range_maps_to_first_pixel() {
    let v = Visualizer::new(7, 7, 4, 4);
    assert_eq!(v.event_to_range(&event(7, 4096, READ)), (0, 1));
}

#[test]
fn sectors_outside_range_are_clamped() {
    let v = Visualizer::new(100, 200, 10, 1);
    assert_eq!(v.event_to_range(&event(0, 0, READ)), (0, 1));
    assert_eq!(v.event_to_range(&event(200, 0, READ)), (9, 10));
    assert_eq!(v.event_to_range(&event(150, 512 * 1000, READ)), (4, 9));
}

#[test]
fn heatmap_counts_overlaps() {
    let v = Visualizer::new(0, 9, 10, 1);
    let events = vec![event(0, 512 * 4, READ), event(2, 512 * 4, WRITE), event(3, 512, READ)];
    let f = v.events_to_heatmap_frame(&events);
    assert_eq!(f.width, 10);
    assert_eq!(f.height, 1);
    assert_eq!(f.frequencies, vec![1, 1, 2, 3, 1, 1, 0, 0, 0, 0]);
    assert_eq!(f.max_frequency, 3);
}

#[test]
fn heatmap_peak_is_at_least_two() {
    let v = Visualizer::new(0, 9, 10, 1);
    let f = v.events_to_heatmap_frame(&[event(0, 512, READ)]);
    assert_eq!(f.max_frequency, 2);
    let empty = v.events_to_heatmap_frame(&[]);
    assert_eq!(empty.frequencies, vec![0; 10]);
    assert_eq!(empty.max_frequency, 2);
}

#[test]
fn categorical_frame_paints_reads_and_writes() {
    let v = Visualizer::new(0, 9, 10, 1);
    let events = vec![
        event(0, 512 * 4, READ),
        event(2, 512, WRITE),
        event(5, 512, READ | WRITE),
        event(0, 512, 0),
    ];
    let f = v.events_to_categorical_frame(&events);
    assert_eq!(
        f.pixels,
        vec![
            READ_SHADE,
            READ_SHADE,
            WRITE_SHADE,
            READ_SHADE,
            IDLE_SHADE,
            WRITE_SHADE,
            IDLE_SHADE,
            IDLE_SHADE,
            IDLE_SHADE,
            IDLE_SHADE
        ]
    );
    assert_eq!((READ_SHADE, WRITE_SHADE, IDLE_SHADE), (170, 10, 255));
}

#[test]
fn bounds_span_lowest_start_to_highest_end() {
    let events = vec![event(100, 512, READ), event(40, 1024, READ), event(300, 1, WRITE)];
    assert_eq!(sector_bounds(&events), Ok((40, 301)));
}

#[test]
fn bounds_report_overflowing_end() {
    let events = vec![event(u64::MAX, 512, READ)];
    assert_eq!(sector_bounds(&events), Err(RenderError::SectorOverflow));
    assert_eq!(sector_bounds(&[]), Err(RenderError::NoEvents));
}

#[test]
fn large_chunk_size_gives_one_frame() {
    assert_eq!(chunk_bounds(5, 100), vec![(0, 5)]);
}

#[test]
fn chunks_split_evenly_with_short_tail() {
    assert_eq!(chunk_bounds(10, 4), vec![(0, 4), (4, 8), (8, 10)]);
    assert_eq!(chunk_bounds(8, 4), vec![(0, 4), (4, 8)]);
    assert!(chunk_bounds(0, 4).is_empty());
}
