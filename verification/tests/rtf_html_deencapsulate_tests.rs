use pst_utils::charset::{decode_byte, encoding_from_codepage, ByteTexts, Charset};
use pst_utils::rtf_html_deencapsulate::{
    decode_rtf_escapes, deencapsulate_html, extract_balanced_group, extract_htmltag_content, parse_ansicpg,
    rtf_to_html_outlook, skip_rtf_escape, try_decode_rtf_escapes, try_rtf_to_html_outlook, RtfError,
};
use pst_utils::rtf_lex::{hex_digit_to_value, parse_hex_byte};

#[test]
fn test_simple_htmltag() {
    let rtf = "{\\rtf1\\ansi\\ansicpg1252\\fromhtml{\\*\\htmltag1 <html>}}";
    let result = rtf_to_html_outlook(rtf).unwrap();
    assert_eq!(result, "<html>".to_string());
}

#[test]
fn test_text_outside_htmltag() {
    // Text content appears outside htmltag groups, after \htmlrtf0
    let rtf = "{\\rtf1\\ansi\\ansicpg1252\\fromhtml{\\*\\htmltag1 <body>}\\htmlrtf0 Hello World{\\*\\htmltag2 </body>}}";
    let result = rtf_to_html_outlook(rtf).unwrap();
    assert_eq!(result, "<body>Hello World</body>".to_string());
}

#[test]
fn test_htmlrtf_mode_switch() {
    // \htmlrtf switches to RTF-only mode (content skipped)
    // \htmlrtf0 switches back to HTML mode (content included)
    let rtf = "{\\rtf1\\ansi\\ansicpg1252\\fromhtml{\\*\\htmltag1 <p>}\\htmlrtf {\\fs24 RTF-only }\\htmlrtf0 HTML content{\\*\\htmltag2 </p>}}";
    let result = rtf_to_html_outlook(rtf).unwrap();
    assert_eq!(result, "<p>HTML content</p>".to_string());
}

#[test]
fn test_full_example_structure() {
    let rtf = "{\\rtf1\\ansi\\ansicpg1252\\fromhtml
{\\*\\htmltag1 <html>}
{\\*\\htmltag2 <body>}
}\\htmlrtf {\\fs48 \\par\\b }\\htmlrtf0
{\\*\\htmltag3 <h1>}\\htmlrtf {\\htmlrtf0
A Heading
{\\*\\htmltag4 </h1>}
{\\*\\htmltag5 <p>}\\htmlrtf {\\htmlrtf0
Some normal text
{\\*\\htmltag6 </p>}
{\\*\\htmltag7 </body>}
{\\*\\htmltag8 </html>}}";
    let result = rtf_to_html_outlook(rtf);
    let html = result.expect("Should extract HTML");
    assert!(html.contains("<html>"));
    assert!(html.contains("<body>"));
    assert!(html.contains("A Heading"));
    assert!(html.contains("Some normal text"));
    assert!(html.contains("</html>"));
}

#[test]
fn test_header_content_skipped() {
    // Font table and other header content should not appear in output
    let rtf = "{\\rtf1\\ansi\\ansicpg1252\\fromhtml{\\fonttbl{\\f0 Arial;}{\\f1 Courier;}}{\\*\\htmltag1 <html>}\\htmlrtf0 Hello{\\*\\htmltag2 </html>}}";
    let result = rtf_to_html_outlook(rtf);
    let html = result.expect("Should extract HTML");
    assert!(!html.contains("Arial"));
    assert!(!html.contains("Courier"));
    assert!(html.contains("<html>"));
    assert!(html.contains("Hello"));
    assert!(html.contains("</html>"));
}

#[test]
fn test_hex_escape() {
    let rtf = "{\\rtf1\\ansi\\ansicpg1252\\fromhtml{\\*\\htmltag1 caf\\'E9}}";
    let result = rtf_to_html_outlook(rtf).unwrap();
    assert_eq!(result, "café".to_string());
}

#[test]
fn test_no_fromhtml() {
    let rtf = "{\\rtf1\\ansi{\\*\\htmltag1 <html>}}";
    let result = rtf_to_html_outlook(rtf);
    assert!(result.is_err());
}

#[test]
fn errors_say_why() {
    assert_eq!(rtf_to_html_outlook("<html>"), Err(RtfError::NotRtf));
    assert_eq!(rtf_to_html_outlook("{\\rtf1\\ansi{\\*\\htmltag1 <html>}}"), Err(RtfError::NotFromHtml));
    assert_eq!(rtf_to_html_outlook("{\\rtf1\\fromhtml plain text}"), Err(RtfError::NoOutput));
}

#[test]
fn exact_output_of_mode_switches() {
    let rtf = "{\\rtf1\\fromhtml\\htmlrtf0 a\\htmlrtf1 b\\htmlrtf c\\htmlrtf00 d\\htmlrtf99999999999 e}";
    assert_eq!(rtf_to_html_outlook(rtf).unwrap(), "ad");
}

#[test]
fn tag_groups_count_in_rtf_mode() {
    let rtf = "{\\rtf1\\fromhtml\\htmlrtf skipped{\\*\\htmltag4 <br>} skipped}";
    assert_eq!(rtf_to_html_outlook(rtf).unwrap(), "<br>");
}

#[test]
fn escapes_in_html_text() {
    let rtf = "{\\rtf1\\fromhtml\\htmlrtf0 a\\{b\\}c\\\\d\\u8364?e\\'41}";
    assert_eq!(rtf_to_html_outlook(rtf).unwrap(), "a{b}c\\d€eA");
}

#[test]
fn code_page_selects_the_charset() {
    let rtf = "{\\rtf1\\ansi\\ansicpg1251\\fromhtml{\\*\\htmltag1 \\'c0}}";
    assert_eq!(rtf_to_html_outlook(rtf).unwrap(), "А");
    let unknown = "{\\rtf1\\ansi\\ansicpg437\\fromhtml{\\*\\htmltag1 \\'e9}}";
    assert_eq!(rtf_to_html_outlook(unknown).unwrap(), "é");
}

#[test]
fn parse_ansicpg_finds_first_number() {
    assert_eq!(parse_ansicpg("{\\rtf1\\ansi\\ansicpg1252\\deff0"), Some(1252));
    assert_eq!(parse_ansicpg("{\\rtf1\\ansi\\deff0"), None);
    assert_eq!(parse_ansicpg("\\ansicpgx\\ansicpg932 "), Some(932));
    assert_eq!(parse_ansicpg("\\ansicpg99999\\ansicpg950"), Some(950));
    // The search resumes one byte past a \ansicpg without a number, so a
    // \ansicpg that follows directly on another is not seen.
    assert_eq!(parse_ansicpg("\\ansicpg\\ansicpg932"), None);
    assert_eq!(parse_ansicpg("\\ansicpg \\ansicpg932"), Some(932));
}

#[test]
fn codepages_map_to_charsets() {
    assert_eq!(encoding_from_codepage(1252), Some(Charset::Windows1252));
    assert_eq!(encoding_from_codepage(932), Some(Charset::ShiftJis));
    assert_eq!(encoding_from_codepage(874), Some(Charset::Windows874));
    assert_eq!(encoding_from_codepage(65001), None);
}

#[test]
fn decode_byte_uses_the_charset() {
    assert_eq!(decode_byte(Charset::Windows1252, 0xE9), "é");
    assert_eq!(decode_byte(Charset::Windows1252, 0x80), "€");
    assert_eq!(decode_byte(Charset::Windows1251, 0xC0), "А");
    assert_eq!(decode_byte(Charset::Windows1253, 0xE1), "α");
    assert_eq!(decode_byte(Charset::Gbk, 0x41), "A");
}

#[test]
fn hex_digits() {
    assert_eq!(hex_digit_to_value(b'0'), Some(0));
    assert_eq!(hex_digit_to_value(b'9'), Some(9));
    assert_eq!(hex_digit_to_value(b'a'), Some(10));
    assert_eq!(hex_digit_to_value(b'F'), Some(15));
    assert_eq!(hex_digit_to_value(b'g'), None);
    assert_eq!(parse_hex_byte(b'E', b'9'), Some(0xE9));
    assert_eq!(parse_hex_byte(b'0', b'f'), Some(0x0F));
    assert_eq!(parse_hex_byte(b'x', b'0'), None);
}

#[test]
fn hex_roundtrip_for_every_byte() {
    for b in 0..=255u8 {
        let upper = format!("{:02X}", b);
        let lower = format!("{:02x}", b);
        assert_eq!(parse_hex_byte(upper.as_bytes()[0], upper.as_bytes()[1]), Some(b));
        assert_eq!(parse_hex_byte(lower.as_bytes()[0], lower.as_bytes()[1]), Some(b));
    }
}

#[test]
fn skip_escape_moves_past_each_kind() {
    let buf = b"\\'e9x";
    assert_eq!(skip_rtf_escape(buf, 1), 4);
    let buf = b"\\u-1234 x";
    assert_eq!(skip_rtf_escape(buf, 1), 8);
    let buf = b"\\par12 x";
    assert_eq!(skip_rtf_escape(buf, 1), 7);
    let buf = b"\\{x";
    assert_eq!(skip_rtf_escape(buf, 1), 2);
    assert_eq!(skip_rtf_escape(buf, 9), 9);
}

#[test]
fn balanced_group_is_found() {
    let buf = b"x{a{b}\\}c}d";
    let (group, next) = extract_balanced_group(buf, 1).unwrap();
    assert_eq!(group, b"{a{b}\\}c}");
    assert_eq!(group[0], b'{');
    assert_eq!(group[group.len() - 1], b'}');
    assert_eq!(next, 1 + group.len());
    assert_eq!(next, 10);
    assert!(extract_balanced_group(buf, 0).is_none());
    assert!(extract_balanced_group(b"{a{b}", 0).is_none());
}

#[test]
fn htmltag_content_is_stripped() {
    assert_eq!(extract_htmltag_content(b"{\\*\\htmltag84 <p>}"), b"<p>");
    assert_eq!(extract_htmltag_content(b"{\\*\\htmltag<p>}"), b"<p>");
    assert_eq!(extract_htmltag_content(b"{plain}"), b"plain");
    assert_eq!(extract_htmltag_content(b"{"), b"");
}

#[test]
fn decode_escapes_in_tag_content() {
    let texts = ByteTexts::for_charset(Charset::Windows1252);
    assert_eq!(decode_rtf_escapes(b"<a href=\"x\">", &texts), "<a href=\"x\">");
    assert_eq!(decode_rtf_escapes(b"caf\\'e9 \\u233? \\{\\}", &texts), "café é {}");
    assert_eq!(decode_rtf_escapes(b"a\\par b\\\n", &texts), "ab");
    assert_eq!(decode_rtf_escapes(b"\\'zz", &texts), "");
    assert_eq!(decode_rtf_escapes(b"\\u-4064?x", &texts), "x");
}

/// Byte texts that spell each byte as `<hh>`, to see where bytes are decoded.
fn marked_texts() -> ByteTexts {
    ByteTexts { texts: (0..256).map(|b| format!("<{:02x}>", b)).collect() }
}

#[test]
fn deencapsulate_with_given_byte_texts() {
    let texts = marked_texts();
    let out = deencapsulate_html(b"{\\rtf1\\'40{\\*\\htmltag1 a\\'41}\\htmlrtf \\'42\\htmlrtf0 \\'43}", &texts)
        .unwrap();
    assert_eq!(out, "a<41><43>");
    assert_eq!(decode_rtf_escapes(b"\\'ff", &texts), "<ff>");
}

#[test]
fn byte_texts_of_a_charset() {
    let texts = ByteTexts::for_charset(Charset::Windows1252);
    assert_eq!(texts.texts.len(), 256);
    assert_eq!(texts.text_of(0x41), "A");
    assert_eq!(texts.text_of(0xE9), "é");
}

#[test]
fn plain_tag_content_decodes_to_itself() {
    let texts = ByteTexts::for_charset(Charset::ShiftJis);
    let content = b"<td class=\"x\">1 < 2</td>";
    assert_eq!(decode_rtf_escapes(content, &texts).as_bytes(), content);
}

#[test]
fn unicode_escape_skips_fallback_byte() {
    let rtf = "{\\rtf1\\fromhtml{\\*\\htmltag1 \\u8212\\'97x}}";
    assert_eq!(rtf_to_html_outlook(rtf).unwrap(), "—x");
}

#[test]
fn uc_sets_the_fallback_count() {
    let texts = ByteTexts::for_charset(Charset::Windows1252);
    assert_eq!(decode_rtf_escapes(b"\\uc2 \\u233ab", &texts), "\u{e9}");
    assert_eq!(decode_rtf_escapes(b"\\uc0 \\u233ab", &texts), "\u{e9}ab");
    let rtf = "{\\rtf1\\fromhtml\\htmlrtf0 \\uc2 \\u233ab c}";
    assert_eq!(rtf_to_html_outlook(rtf).unwrap(), "\u{e9}c");
}

#[test]
fn control_words_starting_with_u_are_not_unicode() {
    let texts = ByteTexts::for_charset(Charset::Windows1252);
    assert_eq!(decode_rtf_escapes(b"a\\ulnone b\\ul c", &texts), "abc");
}

#[test]
fn nonzero_htmlrtf_parameter_selects_rtf() {
    let rtf = "{\\rtf1\\fromhtml{\\*\\htmltag1 <p>}\\htmlrtf99999999999 hidden\\htmlrtf0 shown}";
    assert_eq!(rtf_to_html_outlook(rtf).unwrap(), "<p>shown");
}

#[test]
fn ansicpg_at_the_end_is_not_a_number() {
    assert_eq!(parse_ansicpg("\\ansicpg"), None);
    assert_eq!(parse_ansicpg("{\\rtf1\\ansicpg"), None);
    assert!(rtf_to_html_outlook("{\\rtf1\\fromhtml\\ansicpg").is_err());
}

#[test]
fn oversized_parameters_are_reported() {
    let rtf = "{\\rtf1\\fromhtml{\\*\\htmltag1 <p>}\\fs99999999999 x}";
    assert_eq!(try_rtf_to_html_outlook(rtf), None);
    let rtf = "{\\rtf1\\fromhtml{\\*\\htmltag1 \\u99999999999}}";
    assert_eq!(try_rtf_to_html_outlook(rtf), None);
    assert_eq!(try_rtf_to_html_outlook("{\\rtf1\\fromhtml{\\*\\htmltag1 <p>}}"), Some(Ok("<p>".to_string())));
    assert_eq!(try_rtf_to_html_outlook("{\\rtf1 x}"), Some(Err(RtfError::NotFromHtml)));
    let texts = ByteTexts::for_charset(Charset::Windows1252);
    assert_eq!(try_decode_rtf_escapes(b"\\u2147483648", &texts), None);
    assert_eq!(try_decode_rtf_escapes(b"\\u2147483647?", &texts), Some(String::new()));
    assert_eq!(deencapsulate_html(b"\\par-99999999999", &texts), None);
}
