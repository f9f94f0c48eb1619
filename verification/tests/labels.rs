use ssak::labels::{
    combined_label, marker_shape, pair_sensor_files, palette_rgb, parse_indices, t_critical_95_milli,
    CompareMode, MarkerShape, PairingError, YScale, MARKER_SHAPES_LEN, PALETTE_LEN,
};
use std::collections::HashSet;

#[test]
fn palette_has_ten_distinct_colors() {
    let colors: HashSet<(u8, u8, u8)> = (0..PALETTE_LEN).map(palette_rgb).collect();
    assert_eq!(colors.len(), 10);
}

#[test]
fn palette_and_marker_cycle_lengths_give_30_combinations() {
    assert_eq!(PALETTE_LEN * MARKER_SHAPES_LEN, 30);
}

#[test]
fn first_thirty_styles_are_distinct() {
    let styles: HashSet<((u8, u8, u8), MarkerShape)> =
        (0..30).map(|i| (palette_rgb(i), marker_shape(i))).collect();
    assert_eq!(styles.len(), 30);
    assert_eq!(palette_rgb(30), palette_rgb(0));
    assert_eq!(marker_shape(30), marker_shape(0));
}

#[test]
fn palette_and_markers_cycle() {
    assert_eq!(palette_rgb(0), (230, 25, 75));
    assert_eq!(palette_rgb(9), (0, 0, 0));
    assert_eq!(palette_rgb(13), (0, 130, 200));
    assert_eq!(marker_shape(0), MarkerShape::Circle);
    assert_eq!(marker_shape(4), MarkerShape::Cross);
    assert_eq!(marker_shape(5), MarkerShape::Triangle);
}

#[test]
fn t_critical_table_values() {
    assert_eq!(t_critical_95_milli(1), 12706);
    assert_eq!(t_critical_95_milli(2), 4303);
    assert_eq!(t_critical_95_milli(30), 2042);
    assert_eq!(t_critical_95_milli(31), 1960);
    assert_eq!(t_critical_95_milli(0), 1960);
}

#[test]
fn combined_label_removes_sensor_mark() {
    assert_eq!(combined_label("Filter A_SP1 1000 lpm"), "Filter A 1000 lpm");
    assert_eq!(combined_label("  test sp1   run  "), "test run");
    assert_eq!(combined_label("SP1"), "");
    assert_eq!(combined_label("a\t\tb"), "a b");
}

#[test]
fn parse_indices_keeps_valid_numbers() {
    assert_eq!(parse_indices("1, 3,x,0, 5 ,+2", 4), vec![0, 2, 1]);
    assert_eq!(parse_indices("", 4), Vec::<usize>::new());
    assert_eq!(parse_indices("-1,99999999999999999999999", 4), Vec::<usize>::new());
}

#[test]
fn menu_labels_and_selection() {
    assert_eq!(CompareMode::Absolute.label(), "По абсолютному расходу (без площади ФЭ)");
    assert_eq!(CompareMode::PerSquareMeter.label(), "По удельному расходу (на 1 м² ФЭ)");
    assert_eq!(CompareMode::from_selection(1), CompareMode::PerSquareMeter);
    assert_eq!(YScale::Linear.label(), "Обычная (линейная), 0-100%");
    assert_eq!(YScale::from_selection(0), YScale::Linear);
    assert_eq!(YScale::from_selection(1), YScale::Logarithmic);
}

#[test]
fn sensor_files_pair_by_position() {
    let pairs = pair_sensor_files(&vec![0, 2, 4], &vec![1, 3, 5]).unwrap();
    assert_eq!(pairs, vec![(0, 1), (2, 3), (4, 5)]);
}

#[test]
fn sensor_pairing_needs_an_upstream_file() {
    assert_eq!(pair_sensor_files(&vec![], &vec![1]), Err(PairingError::NoUpstream));
    assert_eq!(pair_sensor_files(&vec![], &vec![]), Err(PairingError::NoUpstream));
}

#[test]
fn sensor_pairing_reports_both_counts() {
    assert_eq!(
        pair_sensor_files(&vec![0, 2], &vec![1]),
        Err(PairingError::CountMismatch { upstream: 2, downstream: 1 })
    );
}
