use daedalus::{parse_header, parse_message, ParseError};

#[test]
fn message_with_scalar_and_vector_values() {
    let obs = parse_message("#10\nb101 \"\n1!\n").unwrap();
    assert_eq!(obs.time, 10);
    assert_eq!(obs.values.len(), 2);
    assert_eq!(obs.values[0].key(), "!");
    assert_eq!(obs.values[0].value(), Some(1));
    assert_eq!(obs.values[0].time(), 10);
    assert_eq!(obs.values[1].key(), "\"");
    assert_eq!(obs.values[1].value(), Some(5));
    assert_eq!(obs.values[1].time(), 10);
}

#[test]
fn unknown_bits_give_no_value() {
    let obs = parse_message("#3\nx#\nbx01 $\nz%").unwrap();
    assert_eq!(obs.values.len(), 3);
    assert_eq!(obs.values[0].key(), "#");
    assert_eq!(obs.values[0].value(), None);
    assert_eq!(obs.values[1].key(), "$");
    assert_eq!(obs.values[1].value(), None);
    assert_eq!(obs.values[2].key(), "%");
    assert_eq!(obs.values[2].value(), None);
}

#[test]
fn values_sorted_by_key_and_stable() {
    let obs = parse_message("#7\n1b\n0a\nb11 a\n1c\n").unwrap();
    let keys: Vec<&str> = obs.values.iter().map(|r| r.key()).collect();
    assert_eq!(keys, vec!["a", "a", "b", "c"]);
    assert_eq!(obs.values[0].value(), Some(0));
    assert_eq!(obs.values[1].value(), Some(3));
}

#[test]
fn vector_value_keeps_only_second_word() {
    let obs = parse_message("#1\nb1111 ab extra\n").unwrap();
    assert_eq!(obs.values[0].key(), "ab");
    assert_eq!(obs.values[0].value(), Some(15));
}

#[test]
fn vector_value_too_wide_gives_no_value() {
    let bits = "1".repeat(65);
    let obs = parse_message(&format!("#1\nb{} !\n", bits)).unwrap();
    assert_eq!(obs.values[0].value(), None);
    let bits = "1".repeat(64);
    let obs = parse_message(&format!("#1\nb{} !\n", bits)).unwrap();
    assert_eq!(obs.values[0].value(), Some(u64::MAX));
}

#[test]
fn crlf_line_endings() {
    let obs = parse_message("#42\r\n1!\r\n").unwrap();
    assert_eq!(obs.time, 42);
    assert_eq!(obs.values[0].key(), "!");
}

#[test]
fn time_only_message() {
    let obs = parse_message("#0").unwrap();
    assert_eq!(obs.time, 0);
    assert!(obs.values.is_empty());
}

#[test]
fn empty_message_is_malformed() {
    assert_eq!(parse_message("").unwrap_err(), ParseError::MessageMalformed);
}

#[test]
fn bad_times() {
    assert_eq!(parse_message("#\n1!").unwrap_err(), ParseError::TimeMalformed);
    assert_eq!(parse_message("#1x\n").unwrap_err(), ParseError::TimeMalformed);
    assert_eq!(parse_message("\n1!").unwrap_err(), ParseError::TimeMalformed);
    assert_eq!(parse_message("é5\n").unwrap_err(), ParseError::TimeMalformed);
    assert_eq!(parse_message("#18446744073709551616").unwrap_err(), ParseError::TimeMalformed);
    assert_eq!(parse_message("#+5").unwrap().time, 5);
}

#[test]
fn bad_value_lines() {
    assert_eq!(parse_message("#1\n\n1!").unwrap_err(), ParseError::RegisterMalformed);
    assert_eq!(parse_message("#1\nb1\t!").unwrap_err(), ParseError::RegisterMalformed);
}

const HEADER: &str = "$date today $end\n$timescale 1ns $end\n$scope module top $end\n$var wire 1 ! clk $end\n$var reg 8 \" count [7:0] $end\n$upscope $end\n$enddefinitions $end\n#0\n$dumpvars\n0!\nb101 \"\n$end\n";

#[test]
fn header_declares_variables_and_initial_values() {
    let h = parse_header(HEADER).unwrap();
    assert_eq!(h.vars.len(), 2);
    assert_eq!(h.vars[0].id, "!");
    assert_eq!(h.vars[0].name, "clk");
    assert_eq!(h.vars[0].width, 1);
    assert_eq!(h.vars[1].id, "\"");
    assert_eq!(h.vars[1].name, "count");
    assert_eq!(h.vars[1].width, 8);
    assert_eq!(h.observation.time, 0);
    assert_eq!(h.observation.values.len(), 2);
    assert_eq!(h.observation.values[0].key(), "!");
    assert_eq!(h.observation.values[0].value(), Some(0));
    assert_eq!(h.observation.values[1].key(), "\"");
    assert_eq!(h.observation.values[1].value(), Some(5));
}

#[test]
fn header_markers_may_be_indented() {
    let h = parse_header("$var wire 4 a sig $end\n  $dumpvars \n #0\t\n1a\n").unwrap();
    assert_eq!(h.vars.len(), 1);
    assert_eq!(h.observation.values.len(), 1);
    assert_eq!(h.observation.values[0].key(), "a");
}

#[test]
fn header_without_end_is_malformed() {
    assert_eq!(parse_header("$var wire 1 ! clk $end\n#0\n").unwrap_err(), ParseError::HeaderMalformed);
    assert_eq!(parse_header("").unwrap_err(), ParseError::HeaderMalformed);
}

#[test]
fn header_bad_declarations() {
    assert_eq!(parse_header("$var wire\n#0\n$dumpvars\n").unwrap_err(), ParseError::WidthMalformed);
    assert_eq!(parse_header("$var wire w ! clk\n#0\n$dumpvars\n").unwrap_err(), ParseError::WidthMalformed);
    assert_eq!(parse_header("$var wire 1 !\n#0\n$dumpvars\n").unwrap_err(), ParseError::VarnameMalformed);
    // A declaration after the header's end is read as a value line.
    let h = parse_header("#0\n$dumpvars\n$var wire\n").unwrap();
    assert!(h.vars.is_empty());
    assert_eq!(h.observation.values[0].key(), "wire");
    assert_eq!(h.observation.values[0].value(), None);
}

#[test]
fn header_error_in_following_values() {
    assert_eq!(parse_header("#0\n$dumpvars\n\n").unwrap_err(), ParseError::RegisterMalformed);
}

#[test]
fn header_end_lines_are_dropped() {
    let h = parse_header("$dumpvars\n#0\n$end\n1!\n$end\n").unwrap();
    assert_eq!(h.observation.values.len(), 1);
}
