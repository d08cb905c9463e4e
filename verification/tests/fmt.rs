use visual_du::debug::fmt::{
    field_label, field_line_prefix, first_line_prefix, is_message_field, level_hsv, same_text,
};
use visual_du::debug::{LogLevel, MessageValueVisitor, PrefixKind, PrettierFormatter};

#[test]
fn new_visitor_has_seen_nothing() {
    let visitor = MessageValueVisitor::new();
    assert_eq!(visitor.value(), None);
    assert_eq!(visitor.field_count(), 0);
}

#[test]
fn visitor_takes_the_first_message_and_counts_the_rest() {
    let mut visitor = MessageValueVisitor::new();
    visitor.record_debug("path", "\"/r\"".to_string());
    assert_eq!(visitor.value(), None);
    assert_eq!(visitor.field_count(), 1);
    visitor.record_debug("message", "starting".to_string());
    assert_eq!(visitor.value(), Some(&"starting".to_string()));
    assert_eq!(visitor.field_count(), 1);
    // a second message is a field like any other
    visitor.record_debug("message", "again".to_string());
    assert_eq!(visitor.value(), Some(&"starting".to_string()));
    assert_eq!(visitor.field_count(), 2);
    visitor.record_debug("size", "3".to_string());
    assert_eq!(visitor.field_count(), 3);
}

#[test]
fn message_field_is_named_exactly() {
    assert!(is_message_field("message"));
    assert!(!is_message_field("messages"));
    assert!(!is_message_field("Message"));
    assert!(!is_message_field("messag"));
    assert!(!is_message_field(""));
}

#[test]
fn same_text_compares_whole_strings() {
    assert!(same_text("", ""));
    assert!(same_text("été", "été"));
    assert!(!same_text("a", ""));
    assert!(!same_text("", "a"));
    assert!(!same_text("ab", "ac"));
    assert!(!same_text("ab", "abc"));
}

#[test]
fn labels_drop_the_raw_identifier_mark() {
    assert_eq!(field_label("message"), None);
    assert_eq!(field_label("path"), Some("path".to_string()));
    assert_eq!(field_label("r#type"), Some("type".to_string()));
    assert_eq!(field_label("r#"), Some(String::new()));
    assert_eq!(field_label("r"), Some("r".to_string()));
    assert_eq!(field_label("r#message"), Some("message".to_string()));
    assert_eq!(field_label(""), Some(String::new()));
}

#[test]
fn prefixes_mark_the_lines_of_a_record() {
    assert_eq!(first_line_prefix(0), PrefixKind::Single);
    assert_eq!(first_line_prefix(1), PrefixKind::Start);
    assert_eq!(first_line_prefix(7), PrefixKind::Start);
    assert_eq!(field_line_prefix(0, 1), PrefixKind::End);
    assert_eq!(field_line_prefix(0, 3), PrefixKind::Mid);
    assert_eq!(field_line_prefix(1, 3), PrefixKind::Mid);
    assert_eq!(field_line_prefix(2, 3), PrefixKind::End);
}

#[test]
fn levels_have_their_colours() {
    assert_eq!(level_hsv(LogLevel::Trace, false), (221, 231, 224));
    assert_eq!(level_hsv(LogLevel::Debug, false), (192, 226, 227));
    assert_eq!(level_hsv(LogLevel::Info, false), (134, 226, 227));
    assert_eq!(level_hsv(LogLevel::Warn, false), (60, 242, 229));
    assert_eq!(level_hsv(LogLevel::Error, false), (358, 202, 220));
    assert_eq!(level_hsv(LogLevel::Trace, true), (221, 231, 90));
    assert_eq!(level_hsv(LogLevel::Error, true), (358, 202, 90));
}

#[test]
fn span_path_is_printed_when_the_span_changes() {
    let mut formatter = PrettierFormatter::new();
    assert_eq!(formatter, PrettierFormatter::default());
    // outside of any span nothing is printed
    assert!(!formatter.enter_span(None));
    assert!(formatter.enter_span(Some(1)));
    assert!(!formatter.enter_span(Some(1)));
    assert!(formatter.enter_span(Some(2)));
    assert!(!formatter.enter_span(None));
    // after a record outside of spans the path is printed again
    assert!(formatter.enter_span(Some(2)));
}
