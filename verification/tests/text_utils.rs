//! Entity decoding and header-name formatting.

use engine::headers::{capitalize, format_field_name};
use engine::utilities::html_decode;

#[test]
fn named_entities_decode() {
    assert_eq!(html_decode("a&amp;b"), "a&b");
    assert_eq!(html_decode("&lt;tag&gt;"), "<tag>");
    assert_eq!(html_decode("&quot;q&quot; &apos;a&apos;"), "\"q\" 'a'");
}

#[test]
fn numeric_references_decode() {
    assert_eq!(html_decode("&#65;&#x42;"), "AB");
    assert_eq!(html_decode("&#x203d;"), "\u{203d}");
    assert_eq!(html_decode("&#+65;"), "A");
}

#[test]
fn non_entities_stay_verbatim() {
    assert_eq!(html_decode("a&b"), "a&b");
    assert_eq!(html_decode("&bogus;x"), "bogusx");
    assert_eq!(html_decode("&#xD800;"), "#xD800");
    assert_eq!(html_decode("&#99999999999;"), "#99999999999");
    assert_eq!(html_decode("fish & chips"), "fish & chips");
}

#[test]
fn empty_and_plain_inputs_pass_through() {
    assert_eq!(html_decode(""), "");
    assert_eq!(html_decode("plain"), "plain");
}

#[test]
fn capitalize_upper_cases_the_first_character() {
    assert_eq!(capitalize("content"), "Content");
    assert_eq!(capitalize(""), "");
    assert_eq!(capitalize("x"), "X");
}

#[test]
fn field_names_are_title_cased() {
    assert_eq!(format_field_name("content-type"), "Content-Type");
    assert_eq!(format_field_name("X-FORWARDED-FOR"), "X-Forwarded-For");
    assert_eq!(format_field_name("host"), "Host");
}

#[test]
fn field_names_with_double_dash_stay_untouched() {
    assert_eq!(format_field_name("x--payload"), "x--payload");
    assert_eq!(format_field_name("A--B"), "A--B");
}

#[test]
fn consecutive_dashes_keep_their_shape() {
    assert_eq!(format_field_name("a-b-c"), "A-B-C");
    assert_eq!(format_field_name("-lead"), "-Lead");
}

#[test]
fn stray_semicolons_follow_the_entity_rules() {
    // the run between '&' and the next ';' is read as an entity name and,
    // failing that, kept without its ampersand
    assert_eq!(html_decode("tom & jerry; end"), "tom  jerry end");
    assert_eq!(html_decode("a&;b"), "ab");
}
