use ssak::config::AppConfig;
use ssak::prompts::{count_answer, is_quit, number_text, with_png_extension, CountAnswer};
use std::path::PathBuf;

#[test]
fn quit_answers() {
    assert!(is_quit("q"));
    assert!(is_quit(" Q \n"));
    assert!(!is_quit("qq"));
    assert!(!is_quit(""));
}

#[test]
fn count_answers() {
    assert_eq!(count_answer("q", 3), CountAnswer::Quit);
    assert_eq!(count_answer(" 5 ", 3), CountAnswer::Count(5));
    assert_eq!(count_answer("3", 3), CountAnswer::Count(3));
    assert_eq!(count_answer("2", 3), CountAnswer::TooSmall);
    assert_eq!(count_answer("+4", 3), CountAnswer::Count(4));
    assert_eq!(count_answer("-4", 3), CountAnswer::Invalid);
    assert_eq!(count_answer("abc", 3), CountAnswer::Invalid);
}

#[test]
fn number_answers() {
    assert_eq!(number_text(" 1,25 "), Some("1.25".to_string()));
    assert_eq!(number_text("Q"), None);
    assert_eq!(number_text("x"), Some("x".to_string()));
}

#[test]
fn png_names() {
    assert_eq!(with_png_extension("plot"), "plot.png");
    assert_eq!(with_png_extension("plot.PnG"), "plot.PnG");
    assert_eq!(with_png_extension("plot.png.txt"), "plot.png.txt.png");
    assert_eq!(with_png_extension(&with_png_extension("a")), "a.png");
}

#[test]
fn config_default_and_paths() {
    let c = AppConfig::default();
    assert_eq!(c.input_dir, ".");
    assert_eq!(c.output_dir, "./output");
    assert_eq!(c.output_path("r.png"), PathBuf::from("./output").join("r.png"));
    assert_eq!(c.input_path("d.txt"), PathBuf::from(".").join("d.txt"));
}


#[test]
fn config_paths_extend_the_folder() {
    let c = AppConfig { input_dir: "in".to_string(), output_dir: "out/".to_string() };
    let p = c.input_path("a.txt");
    let t = p.to_str().unwrap();
    assert!(t == "in/a.txt" || t == "in\\a.txt");
    assert_eq!(c.output_path("b.png").to_str().unwrap(), "out/b.png");
}

#[test]
fn default_output_folder_gets_a_separator() {
    let c = AppConfig::default();
    let t = c.output_path("r.png");
    let t = t.to_str().unwrap();
    assert!(t == "./output/r.png" || t == "./output\\r.png");
    let c = AppConfig { input_dir: String::new(), output_dir: "x\\".to_string() };
    assert_eq!(c.input_path("10:30.txt").to_str().unwrap(), "10:30.txt");
    let t = c.output_path("a");
    let t = t.to_str().unwrap();
    assert!(t == "x\\a" || t == "x\\/a");
}
