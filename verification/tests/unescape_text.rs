use chunk_scan::unescape::{
    opener_bytes, output_of, pattern_of, unescape, unescape_bytes, InvalidUtf8, RULE_COUNT,
};

fn decoded(text: &str) -> Vec<u8> {
    let mut buffer = text.as_bytes().to_vec();
    unescape_bytes(&mut buffer);
    buffer
}

#[test]
fn line_break_tag_becomes_newline() {
    assert_eq!(decoded("<br>"), b"\n".to_vec());
}

#[test]
fn less_than_entity() {
    assert_eq!(decoded("&lt;"), b"<".to_vec());
}

#[test]
fn greater_than_entity() {
    assert_eq!(decoded("&gt;"), b">".to_vec());
}

#[test]
fn ampersand_entity() {
    assert_eq!(decoded("&amp;"), b"&".to_vec());
}

#[test]
fn quote_entity() {
    assert_eq!(decoded("&quot;"), b"\"".to_vec());
}

#[test]
fn apostrophe_entity() {
    assert_eq!(decoded("&apos;"), b"'".to_vec());
}

#[test]
fn non_breaking_space_inside_text() {
    assert_eq!(decoded("a&nbsp;b"), b"a b".to_vec());
}

#[test]
fn non_breaking_space_at_the_start_is_dropped() {
    assert_eq!(decoded("&nbsp;"), Vec::<u8>::new());
    assert_eq!(decoded("&nbsp;x"), b"x".to_vec());
}

#[test]
fn numeric_reference_letter() {
    assert_eq!(decoded("&#65;"), b"A".to_vec());
}

#[test]
fn numeric_reference_newline() {
    assert_eq!(decoded("&#10;"), b"\n".to_vec());
}

#[test]
fn numeric_reference_inside_text() {
    assert_eq!(decoded("x&#65;y&#66;"), b"xAyB".to_vec());
}

#[test]
fn escaped_ampersand_is_not_read_again_by_earlier_rules() {
    assert_eq!(decoded("&amp;lt;"), b"&lt;".to_vec());
    assert_eq!(decoded("a &amp;lt; b"), b"a &lt; b".to_vec());
}

#[test]
fn byte_of_a_rule_is_not_matched_again() {
    assert_eq!(decoded("&amp;quot;"), b"&quot;".to_vec());
    assert_eq!(decoded("&amp;apos;"), b"&apos;".to_vec());
    assert_eq!(decoded("&amp;amp;"), b"&amp;".to_vec());
    assert_eq!(decoded("&amp;nbsp;"), b"&nbsp;".to_vec());
    assert_eq!(decoded("&lt;br&gt;"), b"<br>".to_vec());
}

#[test]
fn byte_of_a_rule_does_not_open_a_reference() {
    assert_eq!(decoded("&amp;#65;"), b"&#65;".to_vec());
}

#[test]
fn value_of_a_reference_is_not_matched_again() {
    assert_eq!(decoded("&#38;#65;"), b"&#65;".to_vec());
    assert_eq!(decoded("&#38;lt;"), b"&lt;".to_vec());
    assert_eq!(decoded("&#60;br>"), b"<br>".to_vec());
}

#[test]
fn escapes_next_to_each_other_are_each_decoded() {
    assert_eq!(decoded("&amp;&quot;&#65;&lt;"), b"&\"A<".to_vec());
}

#[test]
fn plain_text_is_unchanged() {
    assert_eq!(decoded("plain text, no escapes"), b"plain text, no escapes".to_vec());
    assert_eq!(decoded(""), Vec::<u8>::new());
}

#[test]
fn leading_spaces_are_dropped() {
    assert_eq!(decoded(" hello"), b"hello".to_vec());
    assert_eq!(decoded("   hello world "), b"hello world ".to_vec());
}

#[test]
fn mismatch_does_not_restart_a_match() {
    assert_eq!(decoded("&&lt;"), b"&&lt;".to_vec());
    assert_eq!(decoded("<<br>"), b"<<br>".to_vec());
}

#[test]
fn numeric_value_is_kept_modulo_256() {
    assert_eq!(decoded("x&#321;"), vec![b'x', 65]);
    assert_eq!(decoded("x&#1A;"), vec![b'x', 27]);
}

#[test]
fn numeric_reference_never_retreats_past_the_start() {
    assert_eq!(decoded("&#6<br>5;"), vec![41]);
    assert_eq!(decoded("&#123456789;"), vec![21]);
}

#[test]
fn mixed_text() {
    assert_eq!(
        decoded(" Tom &amp; Jerry<br>&quot;1 &lt; 2&quot;&#33;"),
        b"Tom & Jerry\n\"1 < 2\"!".to_vec()
    );
}

#[test]
fn rule_table() {
    let patterns: Vec<&[u8]> = (0..RULE_COUNT).map(pattern_of).collect();
    let expected: Vec<&[u8]> =
        vec![b"<br>", b"&nbsp;", b"&lt;", b"&gt;", b"&amp;", b"&quot;", b"&apos;"];
    assert_eq!(patterns, expected);
    let outputs: Vec<u8> = (0..RULE_COUNT).map(output_of).collect();
    assert_eq!(outputs, b"\n <>&\"'".to_vec());
    assert_eq!(opener_bytes(), b"&#");
}

#[test]
fn each_escape_alone_gives_its_byte_but_the_space() {
    for rule in 0..RULE_COUNT {
        let mut buffer = pattern_of(rule).to_vec();
        unescape_bytes(&mut buffer);
        if rule == 1 {
            assert!(buffer.is_empty());
        } else {
            assert_eq!(buffer, vec![output_of(rule)]);
        }
    }
}

#[test]
fn output_is_never_longer_than_the_input() {
    for text in ["", " ", "abc", "&amp;&amp;", "&#65;&#66;", "<br><br>x", "&#6<br>5;", "a&#"] {
        assert!(decoded(text).len() <= text.len());
    }
}

#[test]
fn text_is_decoded_in_place() {
    let mut text = String::from(" caf\u{e9} &amp; th\u{e9}<br>&#33;");
    assert_eq!(unescape(&mut text), Ok(()));
    assert_eq!(text, "caf\u{e9} & th\u{e9}\n!");
}

#[test]
fn text_that_decodes_to_invalid_utf8_is_left_alone() {
    let mut text = String::from("x&#200;");
    assert_eq!(unescape(&mut text), Err(InvalidUtf8));
    assert_eq!(text, "x&#200;");
    assert_eq!(decoded("x&#200;"), vec![b'x', 200]);
}

#[test]
fn unfinished_reference_stays_as_it_is() {
    assert_eq!(decoded("a&#65"), b"a&#65".to_vec());
    assert_eq!(decoded("a&lt"), b"a&lt".to_vec());
}
