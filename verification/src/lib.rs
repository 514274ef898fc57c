//! A builder for RFC 5322 e-mail messages with full MIME support.
//!
//! A `MessageBuilder` collects headers and body inputs (a text body, an HTML
//! body, attachments, inline parts, or an explicit part tree), folds them
//! into one canonical MIME structure, and serializes the message to a byte
//! buffer, choosing a content-transfer-encoding per body part.

use vstd::prelude::*;

pub mod bytestr;
pub mod encoders;
pub mod headers;
pub mod mime;
pub mod namemap;

verus! {

use vstd::string::StringSliceAdditionalSpecFns;
use crate::namemap::{sorted_names_dup, has_name, insert_entry_dup, insert_entry};
use crate::headers::{HeaderType, HeaderMap, crlf, put_crlf, headers_render, write_headers};
use crate::headers::address::Address;
use crate::headers::date::Date;
use crate::headers::message_id::MessageId;
use crate::headers::text::Text;
use crate::mime::{
    MimePart, BodyPart, part_wf, all_wf, ct_name, token_of, part_bytes, now_micros,
};
use crate::bytestr::push_dec;

/// The `Message-ID` header name.
pub open spec fn mid_name() -> Seq<u8> {
    ("Message-ID").spec_bytes()
}

/// The `Date` header name.
pub open spec fn date_name() -> Seq<u8> {
    ("Date").spec_bytes()
}

/// Builds an RFC 5322 compliant MIME e-mail message.
pub struct MessageBuilder {
    pub headers: HeaderMap,
    pub html_body: Option<MimePart>,
    pub text_body: Option<MimePart>,
    pub attachments: Option<Vec<MimePart>>,
    pub body: Option<MimePart>,
    pub flowed: bool,
}

/// A well-formed builder: its header map keeps name order, and every body
/// part supplied so far is well-formed.
pub open spec fn builder_wf(b: MessageBuilder) -> bool {
    &&& sorted_names_dup(b.headers@)
    &&& (b.text_body matches Some(p) ==> part_wf(p))
    &&& (b.html_body matches Some(p) ==> part_wf(p))
    &&& (b.attachments matches Some(v) ==> all_wf(v@))
    &&& (b.body matches Some(p) ==> part_wf(p))
}

/// A part whose sole header is `Content-Type: ctype` with no attributes,
/// holding child parts.
pub open spec fn mp_node(p: MimePart, ctype: Seq<u8>) -> bool {
    &&& p.headers@.len() == 1
    &&& p.headers@[0].0 == ct_name()
    &&& p.headers@[0].1 matches HeaderType::ContentType(c) && c.c_type@ == ctype && c.attributes@
        == Seq::<(Seq<u8>, Seq<u8>)>::empty()
    &&& p.contents is Multipart
}

/// The default body when nothing was supplied: `text/plain`, UTF-8, one
/// newline.
pub open spec fn default_body(r: MimePart) -> bool {
    &&& r.headers@.len() == 1
    &&& r.headers@[0].0 == ct_name()
    &&& r.headers@[0].1 matches HeaderType::ContentType(c) && c.c_type@ == (
    "text/plain").spec_bytes() && c.attributes@ == insert_entry(
        Seq::<(Seq<u8>, Seq<u8>)>::empty(),
        ("charset").spec_bytes(),
        ("utf-8").spec_bytes(),
    )
    &&& r.contents matches BodyPart::Text(d) && d@ == ("\n").spec_bytes()
}

/// The assembly policy: how the supplied body inputs determine the one MIME
/// root. An explicit custom body always wins; text and HTML group under
/// `multipart/alternative`; attachments join as siblings of the body under
/// `multipart/mixed`, never inside the alternative group.
pub open spec fn assembles_to(
    custom: Option<MimePart>,
    text: Option<MimePart>,
    html: Option<MimePart>,
    atts: Option<Vec<MimePart>>,
    r: MimePart,
) -> bool {
    match custom {
        Some(c) => r == c,
        None => match (text, html, atts) {
            (Some(t), Some(h), Some(a)) => {
                &&& mp_node(r, ("multipart/mixed").spec_bytes())
                &&& r.contents matches BodyPart::Multipart(cs) && cs@.len() == a@.len() + 1
                    && cs@.skip(1) == a@ && mp_node(
                    cs@[0],
                    ("multipart/alternative").spec_bytes(),
                ) && (cs@[0].contents matches BodyPart::Multipart(th) && th@ == seq![t, h])
            },
            (Some(t), Some(h), None) => {
                &&& mp_node(r, ("multipart/alternative").spec_bytes())
                &&& r.contents matches BodyPart::Multipart(cs) && cs@ == seq![t, h]
            },
            (Some(t), None, Some(a)) => {
                &&& mp_node(r, ("multipart/mixed").spec_bytes())
                &&& r.contents matches BodyPart::Multipart(cs) && cs@ == seq![t] + a@
            },
            (Some(t), None, None) => r == t,
            (None, Some(h), Some(a)) => {
                &&& mp_node(r, ("multipart/mixed").spec_bytes())
                &&& r.contents matches BodyPart::Multipart(cs) && cs@ == seq![h] + a@
            },
            (None, Some(h), None) => r == h,
            (None, None, Some(a)) => {
                &&& mp_node(r, ("multipart/mixed").spec_bytes())
                &&& r.contents matches BodyPart::Multipart(cs) && cs@ == a@
            },
            (None, None, None) => default_body(r),
        },
    }
}

/// Fold the body inputs into one MIME root, by the assembly policy.
fn assemble(
    text: Option<MimePart>,
    html: Option<MimePart>,
    attachments: Option<Vec<MimePart>>,
    custom: Option<MimePart>,
) -> (r: MimePart)
    requires
        text matches Some(p) ==> part_wf(p),
        html matches Some(p) ==> part_wf(p),
        attachments matches Some(v) ==> all_wf(v@),
        custom matches Some(p) ==> part_wf(p),
    ensures
        assembles_to(custom, text, html, attachments, r),
        part_wf(r),
{
    match custom {
        Some(c) => c,
        None => match (text, html, attachments) {
            (Some(t), Some(h), Some(a)) => {
                let mut alt_children: Vec<MimePart> = Vec::new();
                alt_children.push(t);
                alt_children.push(h);
                proof {
                    assert(alt_children@ =~= seq![t, h]);
                    assert(all_wf(alt_children@));
                }
                let alt = MimePart::new_multipart("multipart/alternative", alt_children);
                let mut parts: Vec<MimePart> = Vec::new();
                parts.push(alt);
                let mut a = a;
                let ghost av = a@;
                parts.append(&mut a);
                proof {
                    assert(parts@.skip(1) =~= av);
                    assert forall|i: int| 0 <= i < parts@.len() implies part_wf(
                        #[trigger] parts@[i],
                    ) by {
                        if i >= 1 {
                            assert(parts@[i] == av[i - 1]);
                        }
                    }
                }
                MimePart::new_multipart("multipart/mixed", parts)
            },
            (Some(t), Some(h), None) => {
                let mut cs: Vec<MimePart> = Vec::new();
                cs.push(t);
                cs.push(h);
                proof {
                    assert(cs@ =~= seq![t, h]);
                    assert(all_wf(cs@));
                }
                MimePart::new_multipart("multipart/alternative", cs)
            },
            (Some(t), None, Some(a)) => {
                let mut parts: Vec<MimePart> = Vec::new();
                parts.push(t);
                let mut a = a;
                let ghost av = a@;
                parts.append(&mut a);
                proof {
                    assert(parts@ =~= seq![t] + av);
                    assert forall|i: int| 0 <= i < parts@.len() implies part_wf(
                        #[trigger] parts@[i],
                    ) by {
                        if i >= 1 {
                            assert(parts@[i] == av[i - 1]);
                        }
                    }
                }
                MimePart::new_multipart("multipart/mixed", parts)
            },
            (Some(t), None, None) => t,
            (None, Some(h), Some(a)) => {
                let mut parts: Vec<MimePart> = Vec::new();
                parts.push(h);
                let mut a = a;
                let ghost av = a@;
                parts.append(&mut a);
                proof {
                    assert(parts@ =~= seq![h] + av);
                    assert forall|i: int| 0 <= i < parts@.len() implies part_wf(
                        #[trigger] parts@[i],
                    ) by {
                        if i >= 1 {
                            assert(parts@[i] == av[i - 1]);
                        }
                    }
                }
                MimePart::new_multipart("multipart/mixed", parts)
            },
            (None, Some(h), None) => h,
            (None, None, Some(a)) => MimePart::new_multipart("multipart/mixed", a),
            (None, None, None) => MimePart::new_text("\n"),
        },
    }
}

/// A synthesized Date value: printable ASCII, so it stays on one header
/// line.
pub open spec fn date_str_ok(d: Seq<u8>) -> bool {
    forall|i: int| 0 <= i < d.len() ==> 32 <= #[trigger] d[i] <= 126
}

/// Relies on chrono: `Local::now` reads the clock and `DateTime::to_rfc2822`
/// formats it as an RFC 2822 date-time such as `Tue, 1 Jul 2003 10:52:37
/// +0200`; its output is built from English day and month names, decimal
/// digits, spaces, a comma, colons and a sign, all printable ASCII, with no
/// line break. Nothing else is promised: the value depends on the clock.
/// (`to_rfc2822` panics for years outside 0..=9999, which no running clock
/// produces.)
#[verifier::external_body]
fn now_rfc2822() -> (r: Vec<u8>)
    ensures
        date_str_ok(r@),
{
    chrono::Local::now().to_rfc2822().into_bytes()
}

/// The top-of-message bytes: every explicit header line in map order, then
/// a synthesized `Message-ID` (the given token in angle brackets) when none
/// was set, then a synthesized `Date` when none was set, in that fixed
/// order.
pub open spec fn message_head_bytes(
    h: Seq<(Seq<u8>, HeaderType)>,
    mid: Seq<u8>,
    date: Seq<u8>,
) -> Seq<u8> {
    headers_render(h, 0) + (if !has_name(h, mid_name()) {
        ("Message-ID: <").spec_bytes() + mid + (">\r\n").spec_bytes()
    } else {
        Seq::<u8>::empty()
    }) + (if !has_name(h, date_name()) {
        ("Date: ").spec_bytes() + date + crlf()
    } else {
        Seq::<u8>::empty()
    })
}

impl MessageBuilder {
    /// Create a new MessageBuilder.
    pub fn new() -> (r: Self)
        ensures
            r.headers@ == Seq::<(Seq<u8>, HeaderType)>::empty(),
            r.html_body is None,
            r.text_body is None,
            r.attachments is None,
            r.body is None,
            !r.flowed,
            builder_wf(r),
    {
        MessageBuilder {
            headers: HeaderMap::new(),
            html_body: None,
            text_body: None,
            attachments: None,
            body: None,
            flowed: false,
        }
    }

    /// Add a custom header. Values under one name keep insertion order.
    pub fn header(&mut self, header: &str, value: HeaderType)
        requires
            builder_wf(*old(self)),
        ensures
            final(self).headers@ == insert_entry_dup(
                old(self).headers@,
                header.spec_bytes(),
                value,
            ),
            final(self).html_body == old(self).html_body,
            final(self).text_body == old(self).text_body,
            final(self).attachments == old(self).attachments,
            final(self).body == old(self).body,
            final(self).flowed == old(self).flowed,
            builder_wf(*final(self)),
    {
        self.headers.add(header, value);
    }

    /// Set the Message-ID header. If none is set, one is generated when the
    /// message is written.
    pub fn message_id(&mut self, value: &str)
        requires
            builder_wf(*old(self)),
        ensures
            exists|m: MessageId|
                m.ids() == seq![value.spec_bytes()] && final(self).headers@ == insert_entry_dup(
                    old(self).headers@,
                    mid_name(),
                    HeaderType::MessageId(m),
                ),
            builder_wf(*final(self)),
    {
        self.header("Message-ID", HeaderType::MessageId(MessageId::new(value)));
    }

    /// Set the In-Reply-To header.
    pub fn in_reply_to(&mut self, value: &str)
        requires
            builder_wf(*old(self)),
        ensures
            exists|m: MessageId|
                m.ids() == seq![value.spec_bytes()] && final(self).headers@ == insert_entry_dup(
                    old(self).headers@,
                    ("In-Reply-To").spec_bytes(),
                    HeaderType::MessageId(m),
                ),
            builder_wf(*final(self)),
    {
        self.header("In-Reply-To", HeaderType::MessageId(MessageId::new(value)));
    }

    /// Set the References header.
    pub fn references(&mut self, value: &str)
        requires
            builder_wf(*old(self)),
        ensures
            exists|m: MessageId|
                m.ids() == seq![value.spec_bytes()] && final(self).headers@ == insert_entry_dup(
                    old(self).headers@,
                    ("References").spec_bytes(),
                    HeaderType::MessageId(m),
                ),
            builder_wf(*final(self)),
    {
        self.header("References", HeaderType::MessageId(MessageId::new(value)));
    }

    /// Set the Sender header.
    pub fn sender(&mut self, value: Address)
        requires
            builder_wf(*old(self)),
        ensures
            final(self).headers@ == insert_entry_dup(
                old(self).headers@,
                ("Sender").spec_bytes(),
                HeaderType::Address(value),
            ),
            builder_wf(*final(self)),
    {
        self.header("Sender", HeaderType::Address(value));
    }

    /// Set the From header.
    pub fn from(&mut self, value: Address)
        requires
            builder_wf(*old(self)),
        ensures
            final(self).headers@ == insert_entry_dup(
                old(self).headers@,
                ("From").spec_bytes(),
                HeaderType::Address(value),
            ),
            builder_wf(*final(self)),
    {
        self.header("From", HeaderType::Address(value));
    }

    /// Set the To header.
    pub fn to(&mut self, value: Address)
        requires
            builder_wf(*old(self)),
        ensures
            final(self).headers@ == insert_entry_dup(
                old(self).headers@,
                ("To").spec_bytes(),
                HeaderType::Address(value),
            ),
            builder_wf(*final(self)),
    {
        self.header("To", HeaderType::Address(value));
    }

    /// Set the Cc header.
    pub fn cc(&mut self, value: Address)
        requires
            builder_wf(*old(self)),
        ensures
            final(self).headers@ == insert_entry_dup(
                old(self).headers@,
                ("Cc").spec_bytes(),
                HeaderType::Address(value),
            ),
            builder_wf(*final(self)),
    {
        self.header("Cc", HeaderType::Address(value));
    }

    /// Set the Bcc header.
    pub fn bcc(&mut self, value: Address)
        requires
            builder_wf(*old(self)),
        ensures
            final(self).headers@ == insert_entry_dup(
                old(self).headers@,
                ("Bcc").spec_bytes(),
                HeaderType::Address(value),
            ),
            builder_wf(*final(self)),
    {
        self.header("Bcc", HeaderType::Address(value));
    }

    /// Set the Reply-To header.
    pub fn reply_to(&mut self, value: Address)
        requires
            builder_wf(*old(self)),
        ensures
            final(self).headers@ == insert_entry_dup(
                old(self).headers@,
                ("Reply-To").spec_bytes(),
                HeaderType::Address(value),
            ),
            builder_wf(*final(self)),
    {
        self.header("Reply-To", HeaderType::Address(value));
    }

    /// Set the Subject header.
    pub fn subject(&mut self, value: &str)
        requires
            builder_wf(*old(self)),
        ensures
            exists|x: Text|
                x.text@ == value.spec_bytes() && final(self).headers@ == insert_entry_dup(
                    old(self).headers@,
                    ("Subject").spec_bytes(),
                    HeaderType::Text(x),
                ),
            builder_wf(*final(self)),
    {
        self.header("Subject", HeaderType::Text(Text::new(value)));
    }

    /// Set the Date header. If none is set, one is generated when the
    /// message is written.
    pub fn date(&mut self, value: Date)
        requires
            builder_wf(*old(self)),
        ensures
            final(self).headers@ == insert_entry_dup(
                old(self).headers@,
                date_name(),
                HeaderType::Date(value),
            ),
            builder_wf(*final(self)),
    {
        self.header("Date", HeaderType::Date(value));
    }

    /// Mark the plain text body as `format=flowed`.
    pub fn format_flowed(&mut self)
        ensures
            final(self).flowed,
            final(self).headers == old(self).headers,
            final(self).html_body == old(self).html_body,
            final(self).text_body == old(self).text_body,
            final(self).attachments == old(self).attachments,
            final(self).body == old(self).body,
    {
        self.flowed = true;
    }

    /// Set the plain text body. Only one plain text body can be set this
    /// way; for a more complex MIME structure use `body`.
    pub fn text_body(&mut self, value: &str)
        requires
            builder_wf(*old(self)),
        ensures
            final(self).text_body matches Some(p) && part_wf(p) && (p.contents
                matches BodyPart::Text(d) && d@ == value.spec_bytes()),
            final(self).headers == old(self).headers,
            final(self).html_body == old(self).html_body,
            final(self).attachments == old(self).attachments,
            final(self).body == old(self).body,
            final(self).flowed == old(self).flowed,
            builder_wf(*final(self)),
    {
        if self.flowed {
            self.text_body = Some(MimePart::new_text_flowed(value));
        } else {
            self.text_body = Some(MimePart::new_text(value));
        }
    }

    /// Set the HTML body. Only one HTML body can be set this way; for a
    /// more complex MIME structure use `body`.
    pub fn html_body(&mut self, value: &str)
        requires
            builder_wf(*old(self)),
        ensures
            final(self).html_body matches Some(p) && part_wf(p) && (p.contents
                matches BodyPart::Text(d) && d@ == value.spec_bytes()),
            final(self).headers == old(self).headers,
            final(self).text_body == old(self).text_body,
            final(self).attachments == old(self).attachments,
            final(self).body == old(self).body,
            final(self).flowed == old(self).flowed,
            builder_wf(*final(self)),
    {
        self.html_body = Some(MimePart::new_html(value));
    }

    /// Add a binary attachment.
    pub fn binary_attachment(&mut self, content_type: &str, filename: &str, value: &[u8])
        requires
            builder_wf(*old(self)),
        ensures
            final(self).attachments matches Some(v) && v@.len() > 0 && v@.drop_last() == (
            match old(self).attachments {
                Some(v0) => v0@,
                None => Seq::<MimePart>::empty(),
            }) && part_wf(v@.last()) && (v@.last().contents matches BodyPart::Binary(d) && d@
                == value@),
            final(self).headers == old(self).headers,
            final(self).text_body == old(self).text_body,
            final(self).html_body == old(self).html_body,
            final(self).body == old(self).body,
            final(self).flowed == old(self).flowed,
            builder_wf(*final(self)),
    {
        let part = MimePart::new_binary(content_type, value).attachment(filename);
        self.push_attachment(part);
    }

    /// Add a text attachment.
    pub fn text_attachment(&mut self, content_type: &str, filename: &str, value: &str)
        requires
            builder_wf(*old(self)),
        ensures
            final(self).attachments matches Some(v) && v@.len() > 0 && v@.drop_last() == (
            match old(self).attachments {
                Some(v0) => v0@,
                None => Seq::<MimePart>::empty(),
            }) && part_wf(v@.last()) && (v@.last().contents matches BodyPart::Text(d) && d@
                == value.spec_bytes()),
            final(self).headers == old(self).headers,
            final(self).text_body == old(self).text_body,
            final(self).html_body == old(self).html_body,
            final(self).body == old(self).body,
            final(self).flowed == old(self).flowed,
            builder_wf(*final(self)),
    {
        let part = MimePart::new_text_other(content_type, value).attachment(filename);
        self.push_attachment(part);
    }

    /// Add an inline binary part, referenced by its Content-ID.
    pub fn binary_inline(&mut self, content_type: &str, cid: &str, value: &[u8])
        requires
            builder_wf(*old(self)),
        ensures
            final(self).attachments matches Some(v) && v@.len() > 0 && v@.drop_last() == (
            match old(self).attachments {
                Some(v0) => v0@,
                None => Seq::<MimePart>::empty(),
            }) && part_wf(v@.last()) && (v@.last().contents matches BodyPart::Binary(d) && d@
                == value@),
            final(self).headers == old(self).headers,
            final(self).text_body == old(self).text_body,
            final(self).html_body == old(self).html_body,
            final(self).body == old(self).body,
            final(self).flowed == old(self).flowed,
            builder_wf(*final(self)),
    {
        let part = MimePart::new_binary(content_type, value).inline().cid(cid);
        self.push_attachment(part);
    }

    /// Append one part to the attachment list, starting it if needed.
    fn push_attachment(&mut self, part: MimePart)
        requires
            builder_wf(*old(self)),
            part_wf(part),
        ensures
            final(self).attachments matches Some(v) && v@.len() > 0 && v@.last() == part
                && v@.drop_last() == (match old(self).attachments {
                Some(v0) => v0@,
                None => Seq::<MimePart>::empty(),
            }),
            final(self).headers == old(self).headers,
            final(self).text_body == old(self).text_body,
            final(self).html_body == old(self).html_body,
            final(self).body == old(self).body,
            final(self).flowed == old(self).flowed,
            builder_wf(*final(self)),
    {
        let mut list = match self.attachments.take() {
            Some(v) => v,
            None => Vec::new(),
        };
        list.push(part);
        proof {
            assert(list@.drop_last() =~= (match old(self).attachments {
                Some(v0) => v0@,
                None => Seq::<MimePart>::empty(),
            }));
            assert forall|i: int| 0 <= i < list@.len() implies part_wf(#[trigger] list@[i]) by {
                if i < list@.len() - 1 {
                    match old(self).attachments {
                        Some(v0) => {
                            assert(list@[i] == v0@[i]);
                        },
                        None => {},
                    }
                }
            }
        }
        self.attachments = Some(list);
    }

    /// Set a custom MIME body structure; it wins over every other body
    /// input.
    pub fn body(&mut self, value: MimePart)
        requires
            builder_wf(*old(self)),
            part_wf(value),
        ensures
            final(self).body == Some(value),
            final(self).headers == old(self).headers,
            final(self).text_body == old(self).text_body,
            final(self).html_body == old(self).html_body,
            final(self).attachments == old(self).attachments,
            final(self).flowed == old(self).flowed,
            builder_wf(*final(self)),
    {
        self.body = Some(value);
    }

    /// Build the message: every explicit header line, a synthesized
    /// `Message-ID` and `Date` (in that order) where not set, then the body
    /// assembled by the policy and serialized with its boundaries.
    pub fn write_to(self, output: &mut Vec<u8>)
        requires
            builder_wf(self),
        ensures
            exists|mseed: u64, date: Seq<u8>, root: MimePart, pseed: u64|
                {
                    &&& assembles_to(
                        self.body,
                        self.text_body,
                        self.html_body,
                        self.attachments,
                        root,
                    )
                    &&& part_wf(root)
                    &&& date_str_ok(date)
                    &&& final(output)@ == old(output)@ + message_head_bytes(
                        self.headers@,
                        token_of(mseed, 0),
                        date,
                    ) + part_bytes(root, pseed, 0)
                },
    {
        let ghost out0 = output@;
        write_headers(&self.headers, output);
        let has_mid = match self.headers.get("Message-ID".as_bytes()) {
            Some(_) => true,
            None => false,
        };
        let has_date = match self.headers.get("Date".as_bytes()) {
            Some(_) => true,
            None => false,
        };
        let t = now_micros();
        let mseed: u64 = #[verifier::truncate] (t as u64);
        if !has_mid {
            crate::bytestr::put_str(output, "Message-ID: <");
            push_dec(output, mseed);
            output.push(46);
            push_dec(output, 0);
            crate::bytestr::put_str(output, ">\r\n");
        }
        let ghost date_bytes: Seq<u8> = Seq::empty();
        if !has_date {
            crate::bytestr::put_str(output, "Date: ");
            let d = now_rfc2822();
            output.extend_from_slice(d.as_slice());
            put_crlf(output);
            proof {
                date_bytes = d@;
            }
        }
        proof {
            assert(output@ =~= out0 + message_head_bytes(
                self.headers@,
                token_of(mseed, 0),
                date_bytes,
            ));
        }
        let ghost mid_state = output@;
        let root = assemble(self.text_body, self.html_body, self.attachments, self.body);
        let ghost rootg = root;
        root.write_part(output);
        proof {
            let pseed = choose|s: u64| output@ == mid_state + part_bytes(rootg, s, 0);
            assert(output@ == out0 + message_head_bytes(
                self.headers@,
                token_of(mseed, 0),
                date_bytes,
            ) + part_bytes(rootg, pseed, 0));
        }
    }
}

// ----------------------------------------------------------------------
// Assembly and header-synthesis laws.
// ----------------------------------------------------------------------

/// The structure of a part tree: each part's rendered header block, leaf
/// payloads, and the nesting with its child order.
pub enum PartShape {
    Text(Seq<u8>, Seq<u8>),
    Binary(Seq<u8>, Seq<u8>),
    Multi(Seq<u8>, Seq<PartShape>),
}

/// The shape of one part.
pub open spec fn shape(p: MimePart) -> PartShape
    decreases p, 0nat, 0nat,
{
    match p.contents {
        BodyPart::Text(d) => PartShape::Text(headers_render(p.headers@, 0), d@),
        BodyPart::Binary(d) => PartShape::Binary(headers_render(p.headers@, 0), d@),
        BodyPart::Multipart(cs) => PartShape::Multi(headers_render(p.headers@, 0), shapes(cs@, 0)),
    }
}

/// The shapes of the parts from position `i` on.
pub open spec fn shapes(cs: Seq<MimePart>, i: int) -> Seq<PartShape>
    decreases cs, cs.len() - i, 1nat,
{
    if 0 <= i < cs.len() {
        seq![shape(cs[i])] + shapes(cs, i + 1)
    } else {
        Seq::empty()
    }
}

proof fn lemma_shapes_pointwise(cs1: Seq<MimePart>, cs2: Seq<MimePart>, i: int)
    requires
        0 <= i,
        cs1.len() == cs2.len(),
        forall|j: int| i <= j < cs1.len() ==> shape(#[trigger] cs1[j]) == shape(cs2[j]),
    ensures
        shapes(cs1, i) == shapes(cs2, i),
    decreases cs1.len() - i,
{
    if i < cs1.len() {
        lemma_shapes_pointwise(cs1, cs2, i + 1);
        assert(shapes(cs1, i) =~= shapes(cs2, i));
    } else {
        assert(shapes(cs1, i) =~= shapes(cs2, i));
    }
}

/// Two parts whose single header is the same rendered Content-Type render
/// the same header block.
proof fn lemma_mp_node_headers(p1: MimePart, p2: MimePart, ct: Seq<u8>)
    requires
        mp_node(p1, ct),
        mp_node(p2, ct),
    ensures
        headers_render(p1.headers@, 0) == headers_render(p2.headers@, 0),
{
    assert(headers_render(p1.headers@, 1) == Seq::<u8>::empty());
    assert(headers_render(p2.headers@, 1) == Seq::<u8>::empty());
    assert(headers_render(p1.headers@, 0) == crate::headers::header_line(
        p1.headers@[0].0,
        p1.headers@[0].1,
    ) + Seq::<u8>::empty());
    assert(headers_render(p2.headers@, 0) == crate::headers::header_line(
        p2.headers@[0].0,
        p2.headers@[0].1,
    ) + Seq::<u8>::empty());
}

/// LAW: the assembly policy is deterministic. Two roots assembled from
/// identical inputs are structurally identical trees: the same nesting
/// shape, the same child order, the same headers and payloads.
pub proof fn lemma_assembly_deterministic(
    custom: Option<MimePart>,
    text: Option<MimePart>,
    html: Option<MimePart>,
    atts: Option<Vec<MimePart>>,
    r1: MimePart,
    r2: MimePart,
)
    requires
        assembles_to(custom, text, html, atts, r1),
        assembles_to(custom, text, html, atts, r2),
    ensures
        shape(r1) == shape(r2),
{
    match custom {
        Some(c) => {
        },
        None => match (text, html, atts) {
            (Some(t), Some(h), Some(a)) => {
                let cs1 = r1.contents->Multipart_0@;
                let cs2 = r2.contents->Multipart_0@;
                lemma_mp_node_headers(r1, r2, ("multipart/mixed").spec_bytes());
                lemma_mp_node_headers(cs1[0], cs2[0], ("multipart/alternative").spec_bytes());
                assert(cs1[0].contents->Multipart_0@ == cs2[0].contents->Multipart_0@);
                assert(shape(cs1[0]) == shape(cs2[0]));
                assert forall|j: int| 0 <= j < cs1.len() implies shape(#[trigger] cs1[j])
                    == shape(cs2[j]) by {
                    if j >= 1 {
                        assert(cs1[j] == cs1.skip(1)[j - 1]);
                        assert(cs2[j] == cs2.skip(1)[j - 1]);
                    }
                }
                lemma_shapes_pointwise(cs1, cs2, 0);
            },
            (Some(t), Some(h), None) => {
                lemma_mp_node_headers(r1, r2, ("multipart/alternative").spec_bytes());
                assert(r1.contents->Multipart_0@ == r2.contents->Multipart_0@);
            },
            (Some(t), None, Some(a)) => {
                lemma_mp_node_headers(r1, r2, ("multipart/mixed").spec_bytes());
                assert(r1.contents->Multipart_0@ == r2.contents->Multipart_0@);
            },
            (Some(t), None, None) => {
            },
            (None, Some(h), Some(a)) => {
                lemma_mp_node_headers(r1, r2, ("multipart/mixed").spec_bytes());
                assert(r1.contents->Multipart_0@ == r2.contents->Multipart_0@);
            },
            (None, Some(h), None) => {
            },
            (None, None, Some(a)) => {
                lemma_mp_node_headers(r1, r2, ("multipart/mixed").spec_bytes());
                assert(r1.contents->Multipart_0@ == r2.contents->Multipart_0@);
            },
            (None, None, None) => {
                assert(headers_render(r1.headers@, 1) == Seq::<u8>::empty());
                assert(headers_render(r2.headers@, 1) == Seq::<u8>::empty());
                assert(headers_render(r1.headers@, 0) == crate::headers::header_line(
                    r1.headers@[0].0,
                    r1.headers@[0].1,
                ) + Seq::<u8>::empty());
                assert(headers_render(r2.headers@, 0) == crate::headers::header_line(
                    r2.headers@[0].0,
                    r2.headers@[0].1,
                ) + Seq::<u8>::empty());
            },
        },
    }
}

/// The names of the header lines at the top of a message whose explicit
/// headers are `h` and that had neither Message-ID nor Date set: one name
/// per explicit line (in order), then the two synthesized lines' names.
/// `message_head_bytes` writes exactly one line per name in this sequence.
pub open spec fn head_line_names(h: Seq<(Seq<u8>, HeaderType)>) -> Seq<Seq<u8>> {
    Seq::new(h.len(), |i: int| h[i].0) + seq![mid_name(), date_name()]
}

/// LAW: when neither a Message-ID nor a Date header was set, the written
/// message head holds exactly one Message-ID line and exactly one Date
/// line, the Message-ID line first, both after every explicit header line.
pub proof fn lemma_synthesized_once(h: Seq<(Seq<u8>, HeaderType)>)
    requires
        !has_name(h, mid_name()),
        !has_name(h, date_name()),
    ensures
        head_line_names(h).len() == h.len() + 2,
        forall|j: int|
            0 <= j < head_line_names(h).len() ==> ((#[trigger] head_line_names(h)[j]
                == mid_name()) <==> j == h.len()),
        forall|j: int|
            0 <= j < head_line_names(h).len() ==> ((#[trigger] head_line_names(h)[j]
                == date_name()) <==> j == h.len() + 1),
{
    reveal_strlit("Message-ID");
    reveal_strlit("Date");
    crate::bytestr::lemma_ascii_str_bytes("Message-ID");
    crate::bytestr::lemma_ascii_str_bytes("Date");
    assert(mid_name().len() == 10);
    assert(date_name().len() == 4);
    let ns = head_line_names(h);
    assert forall|j: int| 0 <= j < ns.len() implies ((#[trigger] ns[j] == mid_name()) <==> j
        == h.len()) by {
        if j < h.len() {
            assert(ns[j] == h[j].0);
            assert(h[j].0 != mid_name());
        }
    }
    assert forall|j: int| 0 <= j < ns.len() implies ((#[trigger] ns[j] == date_name()) <==> j
        == h.len() + 1) by {
        if j < h.len() {
            assert(ns[j] == h[j].0);
            assert(h[j].0 != date_name());
        }
    }
}

} // verus!
