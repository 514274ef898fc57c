use mail_builder::headers::address::Address;
use mail_builder::headers::url::URL;
use mail_builder::headers::HeaderType;
use mail_builder::mime::MimePart;
use mail_builder::MessageBuilder;
use mail_parser::MessageParser;

#[test]
fn build_nested_message() {
    let mut message = MessageBuilder::new();

    message.from(Address::new_address("John Doe", "john@doe.com"));
    message.to(Address::new_address("Jane Doe", "jane@doe.com"));
    message.subject("RFC 8621 Section 4.1.4 test");

    message.body(MimePart::new_multipart(
        "multipart/mixed",
        vec![
            MimePart::new_text("Part A contents go here...").inline(),
            MimePart::new_multipart(
                "multipart/mixed",
                vec![
                    MimePart::new_multipart(
                        "multipart/alternative",
                        vec![
                            MimePart::new_multipart(
                                "multipart/mixed",
                                vec![
                                    MimePart::new_text("Part B contents go here...").inline(),
                                    MimePart::new_binary(
                                        "image/jpeg",
                                        "Part C contents go here...".as_bytes(),
                                    )
                                    .inline(),
                                    MimePart::new_text("Part D contents go here...").inline(),
                                ],
                            ),
                            MimePart::new_multipart(
                                "multipart/related",
                                vec![
                                    MimePart::new_html("Part E contents go here...").inline(),
                                    MimePart::new_binary(
                                        "image/jpeg",
                                        "Part F contents go here...".as_bytes(),
                                    ),
                                ],
                            ),
                        ],
                    ),
                    MimePart::new_binary("image/jpeg", "Part G contents go here...".as_bytes())
                        .attachment("image_G.jpg"),
                    MimePart::new_binary(
                        "application/x-excel",
                        "Part H contents go here...".as_bytes(),
                    ),
                    MimePart::new_binary(
                        "x-message/rfc822",
                        "Part J contents go here...".as_bytes(),
                    ),
                ],
            ),
            MimePart::new_text("Part K contents go here...").inline(),
        ],
    ));

    let mut output = Vec::new();
    message.write_to(&mut output);
    MessageParser::default().parse(&output).unwrap();
}

#[test]
fn build_message() {
    let mut message = MessageBuilder::new();
    message.from(Address::new_address("John Doe", "john@doe.com"));
    message.to(Address::new_list(vec![
        Address::new_address("Antoine de Saint-Exupéry", "antoine@exupery.com"),
        Address::new_address("안녕하세요 세계", "test@test.com"),
        Address::new_address("Xin chào", "addr@addr.com"),
    ]));
    message.bcc(Address::new_list(vec![
        Address::new_group(
            "Привет, мир",
            vec![
                Address::new_address("ASCII recipient", "addr1@addr7.com"),
                Address::new_address("ハロー・ワールド", "addr2@addr6.com"),
                Address::new_address("áéíóú", "addr3@addr5.com"),
                Address::new_address("Γειά σου Κόσμε", "addr4@addr4.com"),
            ],
        ),
        Address::new_group(
            "Hello world",
            vec![
                Address::new_address("שלום עולם", "addr5@addr3.com"),
                Address::new_address("¡El ñandú comió ñoquis!", "addr6@addr2.com"),
                Address::new_address("Recipient", "addr7@addr1.com"),
            ],
        ),
    ]));
    message.header(
        "List-Archive",
        HeaderType::Url(URL::new("http://example.com/archive")),
    );
    message.subject("Hello world!");

    message.text_body(&"Hello, world!\n".repeat(20));
    message.html_body(&"<p>¡Hola Mundo!</p>".repeat(20));
    message.binary_inline("image/png", "cid:image", [0, 1, 2, 3, 4, 5].as_ref());
    message.text_attachment("text/plain", "my fíle.txt", &"안녕하세요 세계".repeat(20));
    message.binary_attachment(
        "text/plain",
        "ハロー・ワールド",
        "ハロー・ワールド".repeat(20).as_bytes(),
    );

    let mut output = Vec::new();
    message.write_to(&mut output);
    MessageParser::default().parse(&output).unwrap();
}
