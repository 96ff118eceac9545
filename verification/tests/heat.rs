use crs_core::heat::{build, day_hour, HeatMap};

#[test]
fn empty_heatmap_has_no_cells() {
    let hm = build(&[]);
    assert_eq!(hm.total_blocks, 0);
    assert!(hm.cells.is_empty());
}

#[test]
fn single_firing_records_correct_day_and_hour() {
    // 1970-01-01 00:00:00 UTC = Thursday = day index 3, hour 0
    let hm = build(&[("no-grep".to_string(), 0)]);
    assert_eq!(hm.cells.get(3, 0), Some(1));
    assert_eq!(hm.total_blocks, 1);
}

#[test]
fn multiple_firings_accumulate_in_same_cell() {
    let firings = vec![("r1".to_string(), 0), ("r2".to_string(), 0)];
    let hm = build(&firings);
    assert_eq!(hm.cells.get(3, 0), Some(2));
}

#[test]
fn hour_extraction_is_correct() {
    // 3600 secs = 1 hour past midnight on Thursday
    let (day, hour) = day_hour(3600);
    assert_eq!(day, 3);
    assert_eq!(hour, 1);
}

#[test]
fn max_cell_returns_highest_count() {
    let mut hm = HeatMap::new();
    hm.cells.insert(0, 9, 10);
    hm.cells.insert(1, 14, 3);
    assert_eq!(hm.max_cell(), 10);
}

#[test]
fn render_produces_seven_day_rows() {
    let hm = build(&[("r".to_string(), 0)]);
    let rendered = hm.render();
    let day_lines: Vec<&str> = rendered.lines().skip(1).collect();
    assert_eq!(day_lines.len(), 7);
}

#[test]
fn render_header_has_24_hour_labels() {
    let hm = HeatMap::new();
    let rendered = hm.render();
    let header = rendered.lines().next().unwrap();
    assert!(header.contains("23"));
}

#[test]
fn day_wraps_correctly_for_sunday() {
    // 1970-01-04 = Sunday = day index 6
    let (day, _) = day_hour(3 * 86400);
    assert_eq!(day, 6);
}

#[test]
fn record_then_get_counts_each_block() {
    let mut hm = HeatMap::new();
    hm.record(3600);
    hm.record(3600 + 60);
    assert_eq!(hm.cells.get(3, 1), Some(2));
    assert_eq!(hm.total_blocks, 2);
    assert_eq!(hm.cells.get(3, 2), None);
}

#[test]
fn render_shades_the_busiest_cell_fully() {
    let hm = build(&[("r".to_string(), 0)]);
    let rendered = hm.render();
    let thursday = rendered.lines().nth(4).unwrap();
    assert!(thursday.starts_with("Thu █"), "{thursday}");
}

#[test]
fn default_heatmap_is_empty() {
    let hm = crs_core::heat::HeatMap::default();
    assert_eq!(hm.total_blocks, 0);
    assert_eq!(hm.max_cell(), 0);
}
