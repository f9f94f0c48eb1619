use ssak::exports::{parse_diffp_text, parse_frac_eff_text, parse_measurement_text, MeasurementError};
use ssak::merge::Quantity;

#[test]
fn diffp_reads_dpk_rows_after_header() {
    let text = "log\r\nname\tmain air#1 [l/min]\tP_diff [Pa]\r\n\
DPK01\t100,5\t200\r\n\
xyz\t1\t2\r\n\
dpk02\t 150 \t250,25\r\n\
dpk03\t1\r\n";
    let rows = parse_diffp_text(text).unwrap();
    assert_eq!(
        rows,
        vec![
            ("100.5".to_string(), "200".to_string()),
            ("150".to_string(), "250.25".to_string())
        ]
    );
}

#[test]
fn diffp_without_header_is_none() {
    assert_eq!(parse_diffp_text("a\tb\n1\t2\n"), None);
    assert_eq!(parse_diffp_text(""), None);
}

#[test]
fn diffp_kelvin_sign_counts_as_k() {
    let text = "main air l/min\tP_diff\ndp\u{212A}\t1\t2\n";
    assert_eq!(parse_diffp_text(text).unwrap(), vec![("dp\u{212A}".to_string(), "1".to_string())]);
}

#[test]
fn frac_eff_takes_efficiency_after_upstream_column() {
    let text = "Xu [µm]\tX [µm]\tE [%]\tdCmup [mg]\tdCmdown [mg]\tE [%]\n\
0.3\t0,5\t1\t2\t3\t95,5\n\
0.4\t0.6\n";
    let rows = parse_frac_eff_text(text, Quantity::Mass).unwrap();
    assert_eq!(rows, vec![("0.5".to_string(), "95.5".to_string())]);
}

#[test]
fn frac_eff_without_upstream_takes_first_efficiency() {
    let text = "X [µm]\tE [%]\n1\t50\n";
    let rows = parse_frac_eff_text(text, Quantity::Count).unwrap();
    assert_eq!(rows, vec![("1".to_string(), "50".to_string())]);
    assert_eq!(parse_frac_eff_text("Xu\tE\n", Quantity::Mass), None);
}

#[test]
fn measurement_file_reads_label_and_rows() {
    let text = "rem.1:  Filter  SP1 \r\r\n\
Xu\tX\tXo\tdX\t \tdCmup\tdCmdown\t \tP\tE [%]\r\n\
0.3\t0.35\t0.4\t0.1\t \t10\t0\t \t0\t100\r\n\
\t\t\r\n\
1\t2\t3\r\n";
    let m = parse_measurement_text(text).unwrap();
    assert_eq!(m.label, Some("Filter  SP1".to_string()));
    assert_eq!(m.rows, vec![("0.35".to_string(), "10".to_string(), "0".to_string())]);
}

#[test]
fn measurement_file_without_header_fails() {
    let r = parse_measurement_text("rem.1: x\nXu only\n");
    assert_eq!(r.err(), Some(MeasurementError::NoHeader));
}

#[test]
fn measurement_file_without_remark_has_no_label() {
    let m = parse_measurement_text("Xu E [%]\n").unwrap();
    assert_eq!(m.label, None);
    assert!(m.rows.is_empty());
}
