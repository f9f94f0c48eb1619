use ssak::merge::{
    default_output_name, merge_rows, merged_output_name, parse_table_text, two_file_pick, BinRow,
    FilePick, MergeError, Quantity, TableError,
};
use std::path::PathBuf;

fn row(xu: &str, x: &str, up: f64, down: f64) -> BinRow<f64> {
    BinRow {
        xu: xu.to_string(),
        x: x.to_string(),
        xo: "0.340".to_string(),
        dx: "0.024".to_string(),
        up,
        down,
    }
}

#[test]
fn default_output_name_uses_common_prefix() {
    let up = PathBuf::from("FEG-PN1-10_SP1_1000lpm.txt");
    let down = PathBuf::from("FEG-PN1-10_SP2_1000lpm.txt");
    assert_eq!(default_output_name(&up, &down), "FEG-PN1-10_SP_merged.txt");
}

#[test]
fn quantity_columns_mass_and_count() {
    assert_eq!(Quantity::Mass.up_col(), "dCmup");
    assert_eq!(Quantity::Mass.down_col(), "dCmdown");
    assert_eq!(Quantity::Count.up_col(), "dCnup");
    assert_eq!(Quantity::Count.down_col(), "dCndown");
}

#[test]
fn quantity_labels_and_selection() {
    assert_eq!(Quantity::Mass.label(), "Массовая концентрация (dCmup/dCmdown)");
    assert_eq!(Quantity::Count.label(), "Счётная концентрация (dCnup/dCndown)");
    assert_eq!(Quantity::from_selection(0), Quantity::Mass);
    assert_eq!(Quantity::from_selection(1), Quantity::Count);
}

#[test]
fn merged_name_falls_back_to_upstream_stem() {
    assert_eq!(merged_output_name("alpha", "beta"), "alpha_merged.txt");
    assert_eq!(merged_output_name("_x", "_y"), "_x_merged.txt");
    assert_eq!(merged_output_name("run-a", "run-b"), "run_merged.txt");
}

#[test]
fn default_output_name_without_stem_uses_up() {
    let up = PathBuf::from("");
    let down = PathBuf::from("");
    assert_eq!(default_output_name(&up, &down), "up_merged.txt");
}

#[test]
fn bin_key_joins_bounds_with_tabs() {
    let r = row("0.316", "0.328", 1.0, 0.0);
    assert_eq!(r.bin_key(), "0.316\t0.328\t0.340\t0.024");
}

#[test]
fn merge_rows_takes_up_from_up_and_down_from_down() {
    let up = vec![row("1", "2", 4.0, 0.0), row("2", "3", 8.0, 0.0)];
    let down = vec![row("1", "2", 0.0, 1.0), row("2", "3", 0.0, 2.0)];
    let merged = merge_rows(&up, &down).unwrap();
    assert_eq!(merged.len(), 2);
    assert_eq!(merged[0].up, 4.0);
    assert_eq!(merged[0].down, 1.0);
    assert_eq!(merged[1].up, 8.0);
    assert_eq!(merged[1].down, 2.0);
    assert_eq!(merged[1].xu, "2");
    assert_eq!(merged[1].x, "3");
}

#[test]
fn merge_rows_reports_row_count_mismatch() {
    let up = vec![row("1", "2", 4.0, 0.0)];
    let down = vec![row("1", "2", 0.0, 1.0), row("2", "3", 0.0, 2.0)];
    assert_eq!(merge_rows(&up, &down).unwrap_err(), MergeError::RowCountMismatch { up: 1, down: 2 });
}

#[test]
fn merge_rows_reports_first_bin_mismatch() {
    let up = vec![row("1", "2", 4.0, 0.0), row("2", "3", 8.0, 0.0), row("3", "4", 1.0, 0.0)];
    let down = vec![row("1", "2", 0.0, 1.0), row("2", "9", 0.0, 2.0), row("7", "4", 0.0, 1.0)];
    assert_eq!(merge_rows(&up, &down).unwrap_err(), MergeError::BinMismatch { row: 1 });
}

const EXPORT: &str = "Device\tPALAS\r\nrem.1:\tfilter A\r\n\
Xu [µm]\tX [µm]\tXo [µm]\tdX [µm]\t \tdCmup [mg/m³]\tdCmdown [mg/m³]\t \tP [%]\tE [%]\r\n\
0.316\t0.328\t0.340\t0.024\t \t1,5\t0.000\t \t0\t100\r\n\
\r\n\
0.340\t 0.353 \t0.366\t0.026\t \t2.5\t0,25\t \t10\t90\r\n\
short\tline\r\n";

#[test]
fn parse_table_text_reads_header_and_rows() {
    let t = parse_table_text(EXPORT, Quantity::Mass).unwrap();
    assert_eq!(t.header_lines.len(), 3);
    assert_eq!(t.header_lines[0], "Device\tPALAS");
    assert!(t.header_lines[2].starts_with("Xu [µm]"));
    assert_eq!(t.rows.len(), 2);
    assert_eq!(t.rows[0].xu, "0.316");
    assert_eq!(t.rows[0].up, "1.5");
    assert_eq!(t.rows[0].down, "0.000");
    assert_eq!(t.rows[1].x, "0.353");
    assert_eq!(t.rows[1].down, "0.25");
}

#[test]
fn parse_table_text_without_count_columns_fails() {
    assert_eq!(parse_table_text(EXPORT, Quantity::Count).unwrap_err(), TableError::MissingColumns);
}

#[test]
fn parse_table_text_header_without_bounds_fails() {
    let text = "dCmup [x]\tdCmdown [x]\n1\t2\n";
    assert_eq!(parse_table_text(text, Quantity::Mass).unwrap_err(), TableError::MissingColumns);
}

#[test]
fn two_file_pick_decides_by_count() {
    assert_eq!(two_file_pick(&[3, 5]), FilePick::Pair(3, 5));
    assert_eq!(two_file_pick(&[]), FilePick::Cancel);
    assert_eq!(two_file_pick(&[1, 2, 4]), FilePick::Retry(3));
    assert_eq!(two_file_pick(&[1]), FilePick::Retry(1));
}

#[test]
fn default_output_name_reads_stems_under_a_folder() {
    let up = PathBuf::from("data/alpha.v1.txt");
    let down = PathBuf::from("data/beta.txt");
    assert_eq!(default_output_name(&up, &down), "alpha.v1_merged.txt");
    let up = PathBuf::from("run-a.txt");
    let down = PathBuf::from("run-b.txt");
    assert_eq!(default_output_name(&up, &down), "run_merged.txt");
    let up = PathBuf::from(".hidden");
    let down = PathBuf::from(".hidden2");
    assert_eq!(default_output_name(&up, &down), ".hidden_merged.txt");
}
