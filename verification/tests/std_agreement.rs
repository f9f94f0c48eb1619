use ssak::exports::parse_diffp_text;
use ssak::labels::parse_indices;
use ssak::merge::{parse_table_text, Quantity};
use ssak::prompts::{count_answer, is_quit, number_text, with_png_extension, CountAnswer};

const SAMPLES: &[&str] = &[
    "",
    "q",
    " Q ",
    "\u{3000}q\u{a0}",
    "\u{85}1,5\u{2028}",
    "\t 12 \r\n",
    "a b",
    "x.PNG",
    "x.pnG",
    "x.p n g",
    "İ.png",
    "Straße.Png",
    "+7",
    "-7",
    "007",
    "18446744073709551616",
    "\u{200b}3",
    "1,2,3",
];

#[test]
fn quit_agrees_with_std() {
    for s in SAMPLES {
        assert_eq!(is_quit(s), s.trim().eq_ignore_ascii_case("q"), "{:?}", s);
    }
}

#[test]
fn number_text_agrees_with_std() {
    for s in SAMPLES {
        let expected = if s.trim().eq_ignore_ascii_case("q") {
            None
        } else {
            Some(s.trim().replace(',', "."))
        };
        assert_eq!(number_text(s), expected, "{:?}", s);
    }
}

#[test]
fn count_answer_agrees_with_std() {
    for s in SAMPLES {
        let expected = if s.trim().eq_ignore_ascii_case("q") {
            CountAnswer::Quit
        } else {
            match s.trim().parse::<usize>() {
                Ok(v) if v >= 3 => CountAnswer::Count(v),
                Ok(_) => CountAnswer::TooSmall,
                Err(_) => CountAnswer::Invalid,
            }
        };
        assert_eq!(count_answer(s, 3), expected, "{:?}", s);
    }
}

#[test]
fn png_extension_agrees_with_std() {
    for s in SAMPLES {
        let mut expected = s.to_string();
        if !expected.to_lowercase().ends_with(".png") {
            expected.push_str(".png");
        }
        assert_eq!(with_png_extension(s), expected, "{:?}", s);
    }
}

#[test]
fn parse_indices_agrees_with_std() {
    for s in SAMPLES {
        let expected: Vec<usize> = s
            .split(',')
            .filter_map(|p| p.trim().parse::<usize>().ok())
            .filter(|i| *i >= 1 && *i <= 7)
            .map(|i| i - 1)
            .collect();
        assert_eq!(parse_indices(s, 7), expected, "{:?}", s);
    }
}

#[test]
fn header_lines_agree_with_str_lines() {
    let text = "foo\r\nbar\n\nbaz\r\r\nXu [a]\tX [a]\tXo [a]\tdX [a]\tdCmup [a]\tdCmdown [a]\r";
    let t = parse_table_text(text, Quantity::Mass).unwrap();
    let expected: Vec<String> = text.lines().map(|l| l.to_string()).collect();
    assert_eq!(t.header_lines, expected);
    assert!(t.header_lines[4].ends_with('\r'));
    assert!(t.rows.is_empty());
}

#[test]
fn dpk_prefix_agrees_with_lowercase() {
    let firsts = ["DpK1", " dpk ", "İdpk", "dp", "DP\u{212A}", "xdpk", "dpκ", "\u{3000}DPK7"];
    for f in firsts {
        let text = format!("main air l/min\tP_diff\n{}\t1\t2\n", f);
        let expected = f.trim().to_lowercase().starts_with("dpk");
        let rows = parse_diffp_text(&text).unwrap();
        assert_eq!(rows.len() == 1, expected, "{:?}", f);
    }
}

#[test]
fn parse_usize_agrees_with_std() {
    let more = ["", "+", "-", "+0", "0", "12", "1 2", "١٢", "18446744073709551615", "18446744073709551616", "99999999999999999999", "+-1"];
    for s in SAMPLES.iter().chain(more.iter()) {
        assert_eq!(ssak::prompts::parse_usize(s), s.parse::<usize>().ok(), "{:?}", s);
    }
}
