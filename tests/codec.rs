use dxf::codec::escape_control_characters;
use dxf::codec::escape_unicode_to_ascii;
use dxf::codec::un_escape_ascii_to_unicode;
use dxf::value::trim_decimal;
use dxf::value::CodePairValue;

#[test]
fn test_escape_control_characters() {
    assert_eq!("a^G^ ^^ b", escape_control_characters("a\u{7}^\u{1E} b"));
}

#[test]
fn test_unicode_escape() {
    // values in the middle of a string
    assert_eq!(
        "Rep\\U+00E8re pi\\U+00E8ce",
        escape_unicode_to_ascii("Repère pièce")
    );

    // value is the entire string
    assert_eq!("\\U+4F60\\U+597D", escape_unicode_to_ascii("你好"));
}

#[test]
fn test_ascii_unescape() {
    // values in the middle of the string
    assert_eq!(
        "Repère pièce",
        un_escape_ascii_to_unicode("Rep\\U+00E8re pi\\U+00E8ce")
    );

    // value is entire string
    assert_eq!("你好", un_escape_ascii_to_unicode("\\U+4F60\\U+597D"));
}

#[test]
fn caret_escape_covers_every_control_character() {
    assert_eq!("^@^A^Z^[^\\^]^^^_", escape_control_characters("\u{0}\u{1}\u{1A}\u{1B}\u{1C}\u{1D}\u{1E}\u{1F}"));
    assert_eq!("plain text é", escape_control_characters("plain text é"));
    assert_eq!("", escape_control_characters(""));
}

#[test]
fn caret_round_trip_on_mixed_text() {
    let s = "line\u{A}tab\u{9}caret^end\u{1F}é";
    let escaped = escape_control_characters(s);
    assert_eq!("line^Jtab^Icaret^ end^_é", escaped);
    assert_eq!(s, CodePairValue::un_escape_string(&escaped));
}

#[test]
fn caret_unescape_keeps_unknown_and_drops_trailing_caret() {
    assert_eq!("a!b", CodePairValue::un_escape_string("a^!b"));
    assert_eq!("abc", CodePairValue::un_escape_string("abc^"));
    assert_eq!("x^", CodePairValue::un_escape_string("x^ "));
    assert_eq!("\u{1E}", CodePairValue::un_escape_string("^^"));
}

#[test]
fn unicode_escape_pads_and_widens() {
    assert_eq!("\\U+0080", escape_unicode_to_ascii("\u{80}"));
    assert_eq!("\\U+1F600", escape_unicode_to_ascii("\u{1F600}"));
    assert_eq!("\\U+10FFFF", escape_unicode_to_ascii("\u{10FFFF}"));
    assert_eq!("abc", escape_unicode_to_ascii("abc"));
}

#[test]
fn unicode_round_trip_on_bmp_text() {
    let s = "Grüße, 世界 Ω";
    assert_eq!(s, un_escape_ascii_to_unicode(&escape_unicode_to_ascii(s)));
}

#[test]
fn unicode_unescape_edge_cases() {
    // lower-case digits are read
    assert_eq!("è", un_escape_ascii_to_unicode("\\U+00e8"));
    // bad digits and surrogates give a question mark
    assert_eq!("a?b", un_escape_ascii_to_unicode("a\\U+00G8b"));
    assert_eq!("?", un_escape_ascii_to_unicode("\\U+D800"));
    // a window that is not an escape is kept
    assert_eq!("\\abcdefg", un_escape_ascii_to_unicode("\\abcdefg"));
    // a window cut short by the end is dropped
    assert_eq!("ab", un_escape_ascii_to_unicode("ab\\U+00"));
}

#[test]
fn trimmed_decimals() {
    assert_eq!("1.0", trim_decimal("1.000000000000"));
    assert_eq!("1.5", trim_decimal("1.500000000000"));
    assert_eq!("0.1", trim_decimal("0.100000000000"));
    assert_eq!("0.000000002", trim_decimal("0.000000002000"));
    assert_eq!("-100.0", trim_decimal("-100.000000000000"));
    assert_eq!("0.123456789012", trim_decimal("0.123456789012"));
}
