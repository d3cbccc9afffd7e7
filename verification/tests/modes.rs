use flowistry::config::{Config, Range};
use flowistry::extensions::{is_extension_active, ContextMode, EvalMode, MutabilityMode, PointerMode};

#[test]
fn default_mode_is_precise() {
    let mode = EvalMode::default();
    assert_eq!(mode.mutability_mode, MutabilityMode::DistinguishMut);
    assert_eq!(mode.context_mode, ContextMode::SigOnly);
    assert_eq!(mode.pointer_mode, PointerMode::Precise);
}

#[test]
fn nothing_is_active_without_a_mode() {
    assert!(!is_extension_active(None, |_| true));
}

#[test]
fn the_mode_in_force_is_asked() {
    let mut mode = EvalMode::default();
    assert!(!is_extension_active(Some(mode), |m| m.pointer_mode == PointerMode::Conservative));
    mode.pointer_mode = PointerMode::Conservative;
    assert!(is_extension_active(Some(mode), |m| m.pointer_mode == PointerMode::Conservative));
}

#[test]
fn modes_are_parsed_by_name() {
    assert_eq!(MutabilityMode::parse("DistinguishMut"), Ok(MutabilityMode::DistinguishMut));
    assert_eq!(MutabilityMode::parse("IgnoreMut"), Ok(MutabilityMode::IgnoreMut));
    assert_eq!(ContextMode::parse("SigOnly"), Ok(ContextMode::SigOnly));
    assert_eq!(ContextMode::parse("Recurse"), Ok(ContextMode::Recurse));
    assert_eq!(PointerMode::parse("Precise"), Ok(PointerMode::Precise));
    assert_eq!(PointerMode::parse("Conservative"), Ok(PointerMode::Conservative));
    assert_eq!("Recurse".parse::<ContextMode>(), Ok(ContextMode::Recurse));
    assert_eq!("IgnoreMut".parse::<MutabilityMode>(), Ok(MutabilityMode::IgnoreMut));
    assert_eq!("Conservative".parse::<PointerMode>(), Ok(PointerMode::Conservative));
}

#[test]
fn an_unknown_name_is_reported() {
    assert_eq!(MutabilityMode::parse("Mut"), Err(String::from("Could not parse: Mut")));
    assert_eq!(ContextMode::parse(""), Err(String::from("Could not parse: ")));
    assert_eq!(PointerMode::parse("precise"), Err(String::from("Could not parse: precise")));
}

#[test]
fn a_line_range_stays_on_its_line() {
    let range = Range::line(3, 4, 9);
    assert_eq!(range.start_line, 3);
    assert_eq!(range.end_line, 3);
    assert_eq!(range.start_col, 4);
    assert_eq!(range.end_col, 9);
}

#[test]
fn substr_cuts_the_columns_out_of_the_line() {
    let text = "fn main() {\n  let x = 1;\n}\n";
    assert_eq!(Range::line(1, 2, 11).substr(text), "let x = 1");
    assert_eq!(Range::line(0, 0, 2).substr(text), "fn");
    assert_eq!(Range::line(2, 0, 1).substr(text), "}");
    assert_eq!(Range::line(3, 0, 0).substr(text), "");
    assert_eq!(Range::line(1, 5, 5).substr(text), "");
}

#[test]
fn substr_counts_columns_in_bytes() {
    let text = "a\nh\u{e9}llo w\u{f6}rld";
    assert_eq!(Range::line(1, 0, 6).substr(text), "h\u{e9}llo");
    assert_eq!(Range::line(1, 7, 13).substr(text), "w\u{f6}rld");
}

#[test]
fn a_config_names_a_file_and_a_range() {
    let config = Config { path: String::from("src/lib.rs"), range: Range::line(0, 0, 1), debug: true };
    assert_eq!(config.path, "src/lib.rs");
    assert_eq!(config.range.end_col, 1);
    assert!(config.debug);
}
