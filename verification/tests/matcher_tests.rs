use tika_magic::matchers::{
    file_is_text, host16, little16, little32, offset, offset_case_insensitive, offset_mask,
    offset_mask_range, offset_range, offset_range_case_insensitive, prefix,
    prefix_case_insensitive, prefix_string, regex, regex_is_valid, regex_range, rootxml,
    rootxml_local, rootxml_namespace, unicode_le, unicode_le_range,
};

#[test]
fn test_le32() {
    assert!(little32(b"\xFD\x2F\xB5\x28", 0, 0x28B52FFD));
}

#[test]
fn test_file_is_text() {
    assert!(file_is_text(b"Hello, world!"));
    assert!(file_is_text(b"\xff\xfe\x00\x00lollol"));
    assert!(!file_is_text(b"\x00\x00\x00\x00"));
}

#[test]
fn prefix_and_offset() {
    assert!(prefix(b"GIF89a", b"GIF8"));
    assert!(!prefix(b"GIF", b"GIF8"));
    assert!(prefix(b"anything", b""));
    assert!(offset(b"xxGIF", 2, b"GIF"));
    assert!(!offset(b"xxGIF", 3, b"GIF"));
    assert!(!offset(b"abc", 9, b"a"));
    assert!(prefix_string(b"hello", "hel"));
}

#[test]
fn ranged_search() {
    assert!(offset_range(b"..needle..", 0, 9, b"needle"));
    assert!(offset_range(b"..needle..", 2, 9, b"needle"));
    // the whole needle must fit inside the clamped range
    assert!(!offset_range(b"..needle", 0, 3, b"needle"));
    assert!(offset_range(b"..needle", 0, 7, b"needle"));
    assert!(!offset_range(b"", 0, 10, b"x"));
}

#[test]
fn case_insensitive_matchers() {
    assert!(prefix_case_insensitive(b"GiF89a", b"gIf8"));
    // a buffer shorter than the needle never matches
    assert!(!prefix_case_insensitive(b"GI", b"gif8"));
    assert!(!prefix_case_insensitive(b"", b"a"));
    assert!(offset_case_insensitive(b"xxAbC", 2, b"aBc"));
    assert!(offset_range_case_insensitive(b"..HeLLo..", 0, 8, b"hello"));
    assert!(!offset_range_case_insensitive(b"..HeLLo..", 6, 8, b"hello"));
}

#[test]
fn masked_matchers() {
    // high nibbles only
    assert!(offset_mask(b"\x5A\x3B", 0, b"\x50\x30", b"\xF0\xF0"));
    assert!(!offset_mask(b"\x5A\x3B", 0, b"\x40\x30", b"\xF0\xF0"));
    // a truncated buffer never matches
    assert!(!offset_mask(b"\x5A", 0, b"\x50\x30", b"\xF0\xF0"));
    assert!(!offset_mask(b"", 0, b"\x01", b"\xFF"));
    assert!(offset_mask_range(b"..\x5A\x3B..", 0, 5, b"\x50\x30", b"\xF0\xF0"));
    assert!(!offset_mask_range(b"......", 0, 5, b"\x50\x30", b"\xF0\xF0"));
}

#[test]
fn integer_matchers() {
    assert!(little16(b"\x34\x12", 0, 0x1234));
    assert!(host16(b"\x34\x12", 0, 0x1234));
    assert!(!little16(b"\x34", 0, 0x1234));
    assert!(!little32(b"\xFD\x2F\xB5", 0, 0x28B52FFD));
    assert!(unicode_le(b"\x00a\x00b", 1, b"a\x00b"));
    assert!(unicode_le_range(b"..a\x00b\x00..", 0, 7, b"a\x00b\x00"));
    assert!(!unicode_le_range(b"ab", 0, 9, b"a"));
}

#[test]
fn regex_matchers() {
    assert!(regex_is_valid("^(?i)<html"));
    assert!(!regex_is_valid("("));
    assert!(regex(b"<HTML><body>", 0, "^(?i)<html"));
    assert!(!regex(b"xx<HTML>", 0, "^<HTML"));
    assert!(regex(b"xx<HTML>", 2, "^<HTML"));
    assert!(regex_range(b"..<svg..", 0, 5, "<svg"));
    assert!(!regex_range(b"..<svg..", 0, 2, "<svg"));
    // the end of the range is clamped to the buffer
    assert!(regex_range(b"ab<svg", 0, 100, "<svg"));
}

#[test]
fn root_tag_matching() {
    let svg = b"<svg xmlns=\"http://www.w3.org/2000/svg\"> ok";
    assert!(rootxml_local(svg, "svg"));
    assert!(rootxml_namespace(svg, "http://www.w3.org/2000/svg"));
    assert!(rootxml(svg, "svg", "http://www.w3.org/2000/svg"));
    assert!(!rootxml(svg, "html", "http://www.w3.org/2000/svg"));
    // all-zero bytes are rejected by the text-likeness gate
    let zeros = [0u8; 32];
    assert!(!rootxml_local(&zeros, "svg"));
    // a namespaced root element still matches its local name
    let feed = b"<atom:feed xmlns=\"http://www.w3.org/2005/Atom\"> ";
    assert!(rootxml_local(feed, "feed"));
    // an empty namespace URI matches nothing
    assert!(!rootxml_namespace(svg, ""));
    assert!(!rootxml(svg, "svg", ""));
}
