use btemp::cpu_info::{parse_model_name, squeeze_spaces};

#[test]
fn parses_model_name_tab() {
    let s = "processor\t: 0\nmodel name\t: AMD Ryzen 9 9950X 16-Core Processor\n";
    assert_eq!(
        parse_model_name(s).as_deref(),
        Some("AMD Ryzen 9 9950X 16-Core Processor")
    );
}

#[test]
fn parses_model_name_space() {
    let s = "model name : Intel(R) Core(TM) i7-1065G7 CPU @ 1.30GHz\n";
    assert!(parse_model_name(s)
        .unwrap()
        .contains("Intel(R) Core(TM) i7-1065G7"));
}

#[test]
fn arm_model_key_and_squeezed_whitespace() {
    let s = "processor : 0\nBogoMIPS : 108.00\nModel\t:   Raspberry  Pi 4   Model B  \n";
    assert_eq!(parse_model_name(s).as_deref(), Some("Raspberry Pi 4 Model B"));
}

#[test]
fn first_model_line_wins_and_empty_values_are_skipped() {
    let s = "model name :   \nmodel name : First CPU\nmodel name : Second CPU\n";
    assert_eq!(parse_model_name(s).as_deref(), Some("First CPU"));
}

#[test]
fn no_model_line_gives_none() {
    assert_eq!(parse_model_name("processor : 0\nvendor_id : GenuineIntel\n"), None);
    assert_eq!(parse_model_name(""), None);
    assert_eq!(parse_model_name("model name without colon\n"), None);
}

#[test]
fn crlf_lines_and_other_keys() {
    let s = "Model name : not this one\r\nmodel name : Real\t\tName\r\n";
    assert_eq!(parse_model_name(s).as_deref(), Some("Real Name"));
}

#[test]
fn squeeze_spaces_joins_words() {
    assert_eq!(squeeze_spaces("  a \t b\n\nc  "), "a b c");
    assert_eq!(squeeze_spaces(""), "");
    assert_eq!(squeeze_spaces("   "), "");
    assert_eq!(squeeze_spaces("one"), "one");
    assert_eq!(squeeze_spaces("x\u{00a0}y\u{3000}z"), "x y z");
}

#[test]
fn squeezing_twice_changes_nothing() {
    let once = squeeze_spaces("  a \t b  \u{a0}c\n");
    assert_eq!(once, "a b c");
    assert_eq!(squeeze_spaces(&once), once);
    assert_eq!(squeeze_spaces(""), "");
    assert_eq!(squeeze_spaces(&squeeze_spaces(" \t ")), "");
}
