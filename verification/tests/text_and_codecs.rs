//! Text, codecs and the values that the library builds.

use web_agent_research::json::Json;
use web_agent_research::shared::web_engine_search::decode::{
    collapse_whitespace, decode_entities, decode_html_text, hex_val, percent_decode,
    percent_encode, replace_entities, strip_tags,
};
use web_agent_research::text::{
    ascii_lowered, begins_with, blank, bytes_in, chars_of, comes_before, contains_text,
    decimal_text, finishes_with, index_in, joined, parsed_number, prefix_of_bytes, split_on,
    text_between, trimmed, words_of,
};
use web_agent_research::time::Duration;

#[test]
fn white_space_is_that_of_unicode() {
    for code in 0..=0x10ffffu32 {
        if let Some(c) = char::from_u32(code) {
            let text = c.to_string();
            assert_eq!(blank(&text), c.is_whitespace(), "U+{code:04X}");
        }
    }
}

#[test]
fn trimming_and_words_match_white_space() {
    let text = "\u{2003} a\u{a0}b \t\n c \u{3000}";
    assert_eq!(trimmed(text), text.trim());
    assert_eq!(words_of(text), text.split_whitespace().collect::<Vec<_>>());
    assert_eq!(collapse_whitespace(text), "a b c");
    assert_eq!(
        collapse_whitespace(&collapse_whitespace(text)),
        collapse_whitespace(text)
    );
}

#[test]
fn searching_text() {
    assert!(contains_text("abcabd", "abd"));
    assert!(contains_text("abc", ""));
    assert!(!contains_text("ab", "abc"));
    assert!(begins_with("abc", "ab"));
    assert!(finishes_with("abc", "bc"));
    assert!(!finishes_with("c", "bc"));
    assert_eq!(split_on("a\n\nb", '\n'), vec!["a", "", "b"]);
    assert_eq!(
        joined(&["a".to_string(), "b".to_string()], ", "),
        "a, b"
    );
    assert_eq!(index_in(&["x".to_string(), "y".to_string()], "y"), 1);
    assert_eq!(index_in(&["x".to_string()], "z"), 1);
    assert!(comes_before("a", "ab"));
    assert!(!comes_before("b", "ab"));
}

#[test]
fn bytes_and_characters() {
    assert_eq!(bytes_in("é€a"), 6);
    assert_eq!(text_between("é€a", 2, 5), "€");
    assert_eq!(prefix_of_bytes(&chars_of("aé€"), 0, 3), "aé");
    assert_eq!(prefix_of_bytes(&chars_of("aé€"), 0, 4), "aé");
    assert_eq!(ascii_lowered("ÀBC"), "Àbc");
}

#[test]
fn numbers_in_text() {
    assert_eq!(decimal_text(0), "0");
    assert_eq!(decimal_text(u64::MAX), u64::MAX.to_string());
    assert_eq!(parsed_number("+42", 100), Some(42));
    assert_eq!(parsed_number("101", 100), None);
    assert_eq!(parsed_number("", 100), None);
    assert_eq!(parsed_number("4 2", 100), None);
    assert_eq!(
        parsed_number("18446744073709551615", u64::MAX),
        Some(u64::MAX)
    );
    assert_eq!(parsed_number("18446744073709551616", u64::MAX), None);
}

#[test]
fn tags_are_stripped() {
    assert_eq!(strip_tags("a <b>c</b> d"), "a c d");
    assert_eq!(strip_tags("open <b"), "open ");
    assert!(!strip_tags("1 < 2 > 0").contains('<'));
}

#[test]
fn entities_are_decoded() {
    assert_eq!(
        decode_entities("&amp; &lt; &gt; &quot; &#39; &#x41; &#65;"),
        "& < > \" ' A A"
    );
    assert_eq!(decode_entities("AT&T"), "AT&T");
    assert_eq!(decode_entities("&unknown; &"), "&unknown; &");
    assert_eq!(decode_entities("&#xD800;"), "&#xD800;");
    assert_eq!(decode_entities(" a&amp;  b "), "a& b");
    assert_eq!(replace_entities(" a&amp;  b "), " a&  b ");
    assert_eq!(decode_html_text(" <i>a</i>  &amp;\n b "), "a & b");
}

#[test]
fn form_coding_round_trips() {
    for text in ["", "a b", "x&y=z", "caf\u{e9} \u{20ac} \u{1f600}", "100%+"] {
        assert_eq!(percent_decode(&percent_encode(text)), text);
    }
    assert_eq!(percent_encode("a b&c"), "a+b%26c");
    assert_eq!(percent_decode("%C3%A9"), "\u{e9}");
    assert_eq!(percent_decode("%zz%4"), "%zz%4");
    assert_eq!(percent_decode("%FF"), "\u{fffd}");
    assert_eq!(hex_val(b'f'), Some(15));
    assert_eq!(hex_val(b'g'), None);
}

#[test]
fn json_objects_keep_their_fields_in_order() {
    let value = Json::object()
        .with("b", Json::Number(1))
        .with("a", Json::Bool(true))
        .with("b", Json::Null);
    match &value {
        Json::Object(fields) => {
            let names: Vec<&str> = fields.iter().map(|(name, _)| name.as_str()).collect();
            assert_eq!(names, vec!["b", "a", "b"]);
        }
        other => panic!("expected an object, got {other:?}"),
    }
    assert_eq!(value.get("b").and_then(Json::as_u64), Some(1));
    assert!(value.get("c").is_none());
    assert_eq!(Json::optional_text(&None), Json::Null);
}

#[test]
fn spans_of_time() {
    let span = Duration::new(2, 1_500_000_000);
    assert_eq!(span.as_secs(), 2);
    assert_eq!(span.subsec_nanos(), 500_000_000);
    assert_eq!(
        Duration::from_millis(2500).saturating_sub(&Duration::from_millis(700)),
        Duration::from_millis(1800)
    );
    assert!(Duration::from_secs(1)
        .saturating_sub(&Duration::from_secs(2))
        .is_zero());
    assert!(Duration::from_millis(999).at_most(&Duration::from_secs(1)));
}
