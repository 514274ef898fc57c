use mail_builder::encoders::base64::base64_encode;
use mail_builder::encoders::encode::{get_encoding_type, EncodingType};
use mail_builder::encoders::quoted_printable::quoted_printable_encode;
use mail_builder::headers::address::Address;
use mail_builder::headers::message_id::MessageId;
use mail_builder::headers::Header;
use mail_builder::mime::{detect_encoding, make_boundary, MimePart};
use mail_builder::MessageBuilder;
use mail_parser::{MessageParser, MimeHeaders, PartType};

fn find_all(haystack: &[u8], needle: &[u8]) -> Vec<usize> {
    let mut hits = Vec::new();
    if needle.is_empty() || haystack.len() < needle.len() {
        return hits;
    }
    for i in 0..=haystack.len() - needle.len() {
        if &haystack[i..i + needle.len()] == needle {
            hits.push(i);
        }
    }
    hits
}

fn count(haystack: &[u8], needle: &[u8]) -> usize {
    find_all(haystack, needle).len()
}

#[test]
fn text_body_scenario() {
    // A builder with only a text body: synthesized Message-ID and Date,
    // a text/plain content type, a 7-bit transfer encoding, and the body
    // with its line ending normalized to CRLF.
    let mut message = MessageBuilder::new();
    message.text_body("hi\n");
    let mut output = Vec::new();
    message.write_to(&mut output);

    assert_eq!(count(&output, b"Message-ID: <"), 1);
    assert_eq!(count(&output, b"Date: "), 1);
    let mid_at = find_all(&output, b"Message-ID: <")[0];
    let date_at = find_all(&output, b"Date: ")[0];
    assert!(mid_at < date_at);
    assert_eq!(count(&output, b"Content-Type: text/plain; charset=\"utf-8\"\r\n"), 1);
    assert_eq!(count(&output, b"Content-Transfer-Encoding: 7bit\r\n\r\n"), 1);
    assert!(output.ends_with(b"\r\n\r\nhi\r\n"));
}

#[test]
fn synthesized_headers_follow_explicit_ones() {
    let mut message = MessageBuilder::new();
    message.from(Address::new_address("John Doe", "john@doe.com"));
    message.subject("ordering");
    message.text_body("x\n");
    let mut output = Vec::new();
    message.write_to(&mut output);
    let mid_at = find_all(&output, b"Message-ID: <")[0];
    let date_at = find_all(&output, b"Date: ")[0];
    let from_at = find_all(&output, b"From: ")[0];
    let subject_at = find_all(&output, b"Subject: ")[0];
    assert!(from_at < mid_at && subject_at < mid_at);
    assert!(mid_at < date_at);
}

#[test]
fn explicit_message_id_is_kept() {
    let mut message = MessageBuilder::new();
    message.message_id("my-id@example.com");
    message.text_body("x\n");
    let mut output = Vec::new();
    message.write_to(&mut output);
    assert_eq!(count(&output, b"Message-ID: "), 1);
    assert_eq!(count(&output, b"Message-ID: <my-id@example.com>\r\n"), 1);
    // the Date line is still synthesized, exactly once
    assert_eq!(count(&output, b"Date: "), 1);
}

#[test]
fn alternative_and_attachments_structure() {
    // text + html + two attachments: the root is multipart/mixed with three
    // children, the first of which is multipart/alternative holding the
    // text and HTML bodies; attachments are never inside the alternative
    // group.
    let mut message = MessageBuilder::new();
    message.from(Address::new_address("John Doe", "john@doe.com"));
    message.to(Address::new_address("Jane Doe", "jane@doe.com"));
    message.subject("structure");
    message.text_body("plain text\n");
    message.html_body("<p>html</p>");
    message.binary_attachment("image/png", "a.png", [1u8, 2, 3, 4].as_ref());
    message.binary_attachment("application/octet-stream", "b.bin", [5u8, 6].as_ref());
    let mut output = Vec::new();
    message.write_to(&mut output);

    let parsed = MessageParser::default().parse(&output).unwrap();
    let root = &parsed.parts[0];
    let ct = root.content_type().unwrap();
    assert_eq!(ct.ctype(), "multipart");
    assert_eq!(ct.subtype(), Some("mixed"));
    let children = match &root.body {
        PartType::Multipart(ids) => ids.clone(),
        other => panic!("root is not multipart: {:?}", other),
    };
    assert_eq!(children.len(), 3);
    let alt = &parsed.parts[children[0] as usize];
    let alt_ct = alt.content_type().unwrap();
    assert_eq!(alt_ct.ctype(), "multipart");
    assert_eq!(alt_ct.subtype(), Some("alternative"));
    let alt_children = match &alt.body {
        PartType::Multipart(ids) => ids.clone(),
        other => panic!("alternative group is not multipart: {:?}", other),
    };
    assert_eq!(alt_children.len(), 2);
    match &parsed.parts[alt_children[0] as usize].body {
        PartType::Text(t) => assert_eq!(t.as_ref(), "plain text\r\n"),
        other => panic!("first alternative is not text: {:?}", other),
    }
    match &parsed.parts[alt_children[1] as usize].body {
        PartType::Html(t) => assert_eq!(t.as_ref(), "<p>html</p>"),
        other => panic!("second alternative is not html: {:?}", other),
    }
}

#[test]
fn round_trip_single_attachment() {
    // A message from text + html + one binary attachment, written and then
    // parsed, yields one multipart/mixed root with one multipart/alternative
    // child (text, html) and the attachment.
    let mut message = MessageBuilder::new();
    message.text_body("t\n");
    message.html_body("<i>h</i>");
    message.binary_attachment("image/png", "img.png", [9u8, 8, 7].as_ref());
    let mut output = Vec::new();
    message.write_to(&mut output);
    let parsed = MessageParser::default().parse(&output).unwrap();
    let root = &parsed.parts[0];
    let ct = root.content_type().unwrap();
    assert_eq!((ct.ctype(), ct.subtype()), ("multipart", Some("mixed")));
    let children = match &root.body {
        PartType::Multipart(ids) => ids.clone(),
        other => panic!("root is not multipart: {:?}", other),
    };
    assert_eq!(children.len(), 2);
    let alt_ct = parsed.parts[children[0] as usize].content_type().unwrap();
    assert_eq!((alt_ct.ctype(), alt_ct.subtype()), ("multipart", Some("alternative")));
    match &parsed.parts[children[1] as usize].body {
        PartType::Binary(b) => assert_eq!(b.as_ref(), &[9u8, 8, 7]),
        other => panic!("attachment did not survive: {:?}", other),
    }
}

#[test]
fn leaf_message_emits_no_boundaries() {
    // A tree with no multipart node emits no boundary delimiters at all.
    let mut message = MessageBuilder::new();
    message.text_body("no delimiters here\n");
    let mut output = Vec::new();
    message.write_to(&mut output);
    assert_eq!(count(&output, b"\r\n--"), 0);
}

#[test]
fn boundary_delimiters_balance() {
    // Each multipart group emits one separator per child and exactly one
    // closing delimiter for its own token.
    let tree = MimePart::new_multipart(
        "multipart/mixed",
        vec![
            MimePart::new_text("one\n"),
            MimePart::new_multipart(
                "multipart/alternative",
                vec![MimePart::new_text("two\n"), MimePart::new_html("<p>three</p>")],
            ),
        ],
    );
    let mut output = Vec::new();
    tree.write_part(&mut output);

    // collect the boundary tokens as announced in the Content-Type headers
    let mut tokens: Vec<Vec<u8>> = Vec::new();
    for at in find_all(&output, b"boundary=\"") {
        let rest = &output[at + 10..];
        let end = rest.iter().position(|b| *b == b'"').unwrap();
        tokens.push(rest[..end].to_vec());
    }
    assert_eq!(tokens.len(), 2);
    assert_ne!(tokens[0], tokens[1]);
    // the outer group has two children, the inner one two as well
    for tok in &tokens {
        let mut open = Vec::new();
        open.extend_from_slice(b"\r\n--");
        open.extend_from_slice(tok);
        open.extend_from_slice(b"\r\n");
        let mut close = Vec::new();
        close.extend_from_slice(b"\r\n--");
        close.extend_from_slice(tok);
        close.extend_from_slice(b"--\r\n");
        assert_eq!(count(&output, &open), 2);
        assert_eq!(count(&output, &close), 1);
    }
}

#[test]
fn binary_textual_type_follows_classifier() {
    // A Binary part with a textual subtype is not base64-encoded when the
    // classifier picks 7-bit; a non-textual Binary part is always base64.
    let mut message = MessageBuilder::new();
    message.text_body("body\n");
    message.binary_attachment("text/plain", "notes.txt", b"plain ascii notes".as_ref());
    let mut output = Vec::new();
    message.write_to(&mut output);
    assert_eq!(count(&output, b"Content-Transfer-Encoding: base64"), 0);
    assert!(count(&output, b"Content-Transfer-Encoding: 7bit") >= 2);

    let mut message2 = MessageBuilder::new();
    message2.text_body("body\n");
    message2.binary_attachment("application/pdf", "a.pdf", b"plain ascii notes".as_ref());
    let mut output2 = Vec::new();
    message2.write_to(&mut output2);
    assert_eq!(count(&output2, b"Content-Transfer-Encoding: base64"), 1);
}

#[test]
fn format_flowed_tags_text_body() {
    let mut message = MessageBuilder::new();
    message.format_flowed();
    message.text_body("flowing text\n");
    let mut output = Vec::new();
    message.write_to(&mut output);
    assert_eq!(
        count(&output, b"Content-Type: text/plain; charset=\"utf-8\"; format=\"flowed\"\r\n"),
        1
    );
}

#[test]
fn base64_exact_values() {
    let mut out = Vec::new();
    base64_encode(b"abc", &mut out);
    assert_eq!(out, b"YWJj");
    let mut out = Vec::new();
    base64_encode(b"ab", &mut out);
    assert_eq!(out, b"YWI=");
    let mut out = Vec::new();
    base64_encode(b"a", &mut out);
    assert_eq!(out, b"YQ==");
    let mut out = Vec::new();
    base64_encode(b"", &mut out);
    assert_eq!(out, b"");
    // a CRLF breaks the output after 19 groups (76 characters)
    let mut out = Vec::new();
    base64_encode(&[0u8; 60], &mut out);
    assert_eq!(count(&out, b"\r\n"), 1);
    assert_eq!(find_all(&out, b"\r\n")[0], 76);
}

#[test]
fn quoted_printable_exact_values() {
    let mut out = Vec::new();
    quoted_printable_encode(b"a=b", &mut out, true);
    assert_eq!(out, b"a=3Db");
    let mut out = Vec::new();
    quoted_printable_encode(&[b'x', 7u8, 255u8], &mut out, true);
    assert_eq!(out, b"x=07=FF");
    // CR and LF pass through in a body, but not outside one
    let mut out = Vec::new();
    quoted_printable_encode(b"a\r\nb", &mut out, true);
    assert_eq!(out, b"a\r\nb");
    let mut out = Vec::new();
    quoted_printable_encode(b"a\r\nb", &mut out, false);
    assert_eq!(out, b"a=0D=0Ab");
}

#[test]
fn classifier_cases() {
    assert!(matches!(get_encoding_type(b"hi\n", false, true), EncodingType::SevenBit));
    // one unsafe byte in four: still quoted-printable
    assert!(matches!(
        get_encoding_type(&[b'a', b'b', b'c', 200u8], false, true),
        EncodingType::QuotedPrintable
    ));
    // mostly unsafe bytes: base64
    assert!(matches!(
        get_encoding_type(&[200u8, 201, 202, b'a'], false, true),
        EncodingType::Base64
    ));
    // NUL is unsafe
    assert!(matches!(get_encoding_type(&[0u8], false, true), EncodingType::Base64));
}

#[test]
fn seven_bit_body_normalizes_line_endings() {
    let mut out = Vec::new();
    detect_encoding(b"a\nb\r\nc", &mut out, true);
    assert!(out.ends_with(b"a\r\nb\r\nc"));
    // attachments pass through untouched
    let mut out = Vec::new();
    detect_encoding(b"a\nb", &mut out, false);
    assert!(out.ends_with(b"a\nb"));
}

#[test]
fn message_id_list_folds_long_lines() {
    let mut ids = MessageId::new("first-identifier-is-rather-long@example.com");
    ids.add_id("second-identifier-also-quite-long@example.com");
    ids.add_id("third-identifier@example.com");
    let mut out = Vec::new();
    ids.write_header(&mut out, 12);
    assert!(count(&out, b"\r\n\t") >= 1);
    assert!(out.ends_with(b"\r\n"));
}

#[test]
fn make_boundary_tokens() {
    let b = make_boundary();
    assert!(!b.is_empty());
    assert!(b.chars().all(|c| c.is_ascii_digit() || c == '.'));
}

#[test]
fn custom_body_wins() {
    let mut message = MessageBuilder::new();
    message.text_body("ignored\n");
    message.body(MimePart::new_text("the custom body\n"));
    let mut output = Vec::new();
    message.write_to(&mut output);
    assert_eq!(count(&output, b"the custom body"), 1);
    assert_eq!(count(&output, b"ignored"), 0);
}

#[test]
fn empty_builder_gets_default_body() {
    let message = MessageBuilder::new();
    let mut output = Vec::new();
    message.write_to(&mut output);
    assert_eq!(count(&output, b"Content-Type: text/plain; charset=\"utf-8\"\r\n"), 1);
    assert!(output.ends_with(b"\r\n\r\n\r\n"));
}
