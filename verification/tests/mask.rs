use mask_text::mask::Kind;
use mask_text::mask::{all, mask, mask_captured, with_percentage, with_prefix};
use regex::Regex;

#[test]
fn single_char_mask_keeps_character_count() {
    let text = "one\r\ntwo three".to_string();
    let count = text.chars().count();
    let re = Regex::new("(three)").unwrap();
    let outputs = [
        Kind::Percentage(text.clone(), 55, 3, "*".to_string()).mask(),
        Kind::Regex(text.clone(), re, 1, "*".to_string()).mask(),
        Kind::Prefix(text.clone(), 4, "*".to_string()).mask(),
        Kind::All(text.clone(), "*".to_string()).mask(),
    ];
    for out in outputs {
        assert_eq!(out.chars().count(), count);
    }
}

#[test]
fn mask_captured_without_capture_masks_all() {
    let out = mask_captured("text to mask".to_string(), None, "*".to_string());
    assert_eq!(out, "************");
}

#[test]
fn mask_captured_masks_first_occurrence() {
    let out = mask_captured(
        "text to mask".to_string(),
        Some("to".to_string()),
        "*".to_string(),
    );
    assert_eq!(out, "text ** mask");
}

#[test]
fn percentage_twenty_masks_trailing_fifth() {
    let out = Kind::Percentage("text to mask".to_string(), 20, 3, "*".to_string()).mask();
    assert_eq!(out, "text to ma**");
}

#[test]
fn percentage_under_min_chars_masks_all() {
    let out = Kind::Percentage("text to mask".to_string(), 80, 20, "*".to_string()).mask();
    assert_eq!(out, "************");
}

#[test]
fn percentage_at_min_chars_masks_all() {
    let out = with_percentage("text to mask".to_string(), 10, 12, "*".to_string());
    assert_eq!(out, "************");
}

#[test]
fn percentage_zero_masks_nothing() {
    let out = with_percentage("text to mask".to_string(), 0, 3, "*".to_string());
    assert_eq!(out, "text to mask");
}

#[test]
fn percentage_hundred_masks_everything() {
    let out = with_percentage("text to mask".to_string(), 100, 3, "*".to_string());
    assert_eq!(out, "************");
}

#[test]
fn percentage_eighty_rounds_down() {
    let out = with_percentage("text to mask".to_string(), 80, 3, "*".to_string());
    assert_eq!(out, "tex*********");
}

#[test]
fn percentage_keeps_line_breaks() {
    let out = with_percentage("ab\r\ncd".to_string(), 100, 0, "*".to_string());
    assert_eq!(out, "**\r\n**");
}

#[test]
fn prefix_keeps_first_three() {
    let out = Kind::Prefix("text to mask".to_string(), 3, "*".to_string()).mask();
    assert_eq!(out, "tex*********");
}

#[test]
fn prefix_past_end_masks_all() {
    let out = Kind::Prefix("text to mask".to_string(), 200, "*".to_string()).mask();
    assert_eq!(out, "************");
}

#[test]
fn prefix_at_length_masks_all() {
    let out = with_prefix("text to mask".to_string(), 12, "*".to_string());
    assert_eq!(out, "************");
}

#[test]
fn prefix_zero_masks_all() {
    let out = with_prefix("text to mask".to_string(), 0, "*".to_string());
    assert_eq!(out, "************");
}

#[test]
fn prefix_keeps_line_break_inside_prefix_and_after() {
    let out = with_prefix("ab\ncd\ne".to_string(), 4, "*".to_string());
    assert_eq!(out, "ab\nc*\n*");
}

#[test]
fn all_masks_everything() {
    let out = Kind::All("text to mask".to_string(), "*".to_string()).mask();
    assert_eq!(out, "************");
}

#[test]
fn all_on_empty_text() {
    let out = all(String::new(), "*".to_string());
    assert_eq!(out, "");
}

#[test]
fn all_with_multi_char_mask() {
    let out = all("abc".to_string(), "<>".to_string());
    assert_eq!(out, "<><><>");
}

#[test]
fn all_with_empty_mask_erases() {
    let out = all("ab".to_string(), "".to_string());
    assert_eq!(out, "");
}

#[test]
fn all_with_dot_mask() {
    let out = all("text to mask".to_string(), ".".to_string());
    assert_eq!(out, "............");
}

#[test]
fn mask_from_boundary_masks_tail() {
    let out = mask("text to mask".to_string(), 10, "*".to_string());
    assert_eq!(out, "text to ma**");
}

#[test]
fn mask_boundary_past_end_masks_nothing() {
    let out = mask("text to mask".to_string(), 50, "*".to_string());
    assert_eq!(out, "text to mask");
}

#[test]
fn regex_masks_captured_group() {
    let re = Regex::new("([a-z].*) (mask) ([a-z].*)").unwrap();
    let out = Kind::Regex("text to mask on group".to_string(), re, 2, "*".to_string()).mask();
    assert_eq!(out, "text to **** on group");
}

#[test]
fn regex_group_zero_masks_whole_match() {
    let re = Regex::new("to").unwrap();
    let out = Kind::Regex("text to mask".to_string(), re, 0, "*".to_string()).mask();
    assert_eq!(out, "text ** mask");
}

#[test]
fn regex_without_match_masks_all() {
    let re = Regex::new("xyz").unwrap();
    let out = Kind::Regex("text to mask".to_string(), re, 1, "*".to_string()).mask();
    assert_eq!(out, "************");
}

#[test]
fn regex_group_not_participating_masks_all() {
    let re = Regex::new("(a)|(zzz)").unwrap();
    let out = Kind::Regex("abc".to_string(), re, 2, "*".to_string()).mask();
    assert_eq!(out, "***");
}

#[test]
fn regex_group_out_of_range_masks_all() {
    let re = Regex::new("(a)").unwrap();
    let out = Kind::Regex("abc".to_string(), re, 5, "*".to_string()).mask();
    assert_eq!(out, "***");
}

#[test]
fn regex_replaces_first_occurrence_of_captured_text() {
    let re = Regex::new("me: (mask)").unwrap();
    let out = Kind::Regex("mask me: mask".to_string(), re, 1, "*".to_string()).mask();
    assert_eq!(out, "**** me: mask");
}

#[test]
fn regex_keeps_line_breaks_when_masking_all() {
    let re = Regex::new("xyz").unwrap();
    let out = Kind::Regex("a\r\nb".to_string(), re, 0, "*".to_string()).mask();
    assert_eq!(out, "*\r\n*");
}
