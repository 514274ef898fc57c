//! The MIME part tree and its serializer.
//!
//! A part is a leaf (text or binary payload) or a multipart container of
//! child parts. The writer walks the tree iteratively, with an explicit
//! stack of sibling cursors, so nesting depth never grows the call stack,
//! and interleaves each container's children with its boundary delimiters.

use vstd::prelude::*;

verus! {

use vstd::string::StringSliceAdditionalSpecFns;
use crate::bytestr::{bytes_eq, str_vec, dec_digits, push_dec};
use crate::namemap::{sorted_names, has_name, get_value, insert_entry, remove_entry};
use crate::headers::{
    Header, HeaderType, HeaderMap, crlf, put_crlf, headers_render, write_headers,
};
use crate::headers::content_type::{ContentType, ct_render, spec_is_text};
use crate::encoders::encode::{EncodingType, spec_encoding, get_encoding_type};
use crate::encoders::base64::{base64_of, base64_encode};
use crate::encoders::quoted_printable::{qp_of, quoted_printable_encode};

/// The payload of a MIME part.
pub enum BodyPart {
    Text(Vec<u8>),
    Binary(Vec<u8>),
    Multipart(Vec<MimePart>),
}

/// One MIME part: a header map and a payload.
pub struct MimePart {
    pub headers: HeaderMap,
    pub contents: BodyPart,
}

/// The `Content-Type` header name.
pub open spec fn ct_name() -> Seq<u8> {
    ("Content-Type").spec_bytes()
}

/// The `Content-Disposition` header name.
pub open spec fn cd_name() -> Seq<u8> {
    ("Content-Disposition").spec_bytes()
}

/// The `boundary` attribute name.
pub open spec fn bd_name() -> Seq<u8> {
    ("boundary").spec_bytes()
}

/// A header value the writer can treat as a Content-Type when it has to
/// carry a boundary attribute.
pub open spec fn ct_value_supported(v: HeaderType) -> bool {
    v matches HeaderType::ContentType(_) || v matches HeaderType::Raw(_)
}

/// Attribute maps inside a value are sorted.
pub open spec fn value_wf(v: HeaderType) -> bool {
    match v {
        HeaderType::ContentType(c) => sorted_names(c.attributes@),
        _ => true,
    }
}

/// A well-formed part: its header map is sorted with well-formed values and
/// holds a Content-Type; a multipart node's Content-Type value is of a kind
/// the writer can carry a boundary in, and its children are well-formed.
pub open spec fn part_wf(p: MimePart) -> bool
    decreases p, 0nat, 0nat,
{
    &&& sorted_names(p.headers@)
    &&& has_name(p.headers@, ct_name())
    &&& forall|i: int| 0 <= i < p.headers@.len() ==> value_wf((#[trigger] p.headers@[i]).1)
    &&& match p.contents {
        BodyPart::Multipart(cs) => {
            &&& ct_value_supported(get_value(p.headers@, ct_name()))
            &&& all_wf(cs@)
        },
        _ => true,
    }
}

/// Every part of the sequence is well-formed.
pub open spec fn all_wf(cs: Seq<MimePart>) -> bool
    decreases cs, 0nat, 1nat,
{
    forall|i: int| 0 <= i < cs.len() ==> part_wf(#[trigger] cs[i])
}

/// The part header names the builders set are all distinct from
/// `Content-Type`.
proof fn lemma_header_names_distinct()
    ensures
        cd_name() != ct_name(),
        ("Content-Language").spec_bytes() != ct_name(),
        ("Content-ID").spec_bytes() != ct_name(),
        ("Content-Location").spec_bytes() != ct_name(),
{
    reveal_strlit("Content-Type");
    reveal_strlit("Content-Disposition");
    reveal_strlit("Content-Language");
    reveal_strlit("Content-ID");
    reveal_strlit("Content-Location");
    crate::bytestr::lemma_ascii_str_bytes("Content-Type");
    crate::bytestr::lemma_ascii_str_bytes("Content-Disposition");
    crate::bytestr::lemma_ascii_str_bytes("Content-Language");
    crate::bytestr::lemma_ascii_str_bytes("Content-ID");
    crate::bytestr::lemma_ascii_str_bytes("Content-Location");
    assert(ct_name().len() == 12);
    assert(cd_name().len() == 19);
    assert(("Content-Language").spec_bytes().len() == 16);
    assert(("Content-ID").spec_bytes().len() == 10);
    assert(("Content-Location").spec_bytes().len() == 16);
}

impl MimePart {
    /// Create a part from a Content-Type value and a payload.
    pub fn new(content_type: ContentType, contents: BodyPart) -> (r: Self)
        requires
            sorted_names(content_type.attributes@),
            contents matches BodyPart::Multipart(cs) ==> all_wf(cs@),
        ensures
            r.headers@ == seq![(ct_name(), HeaderType::ContentType(content_type))],
            r.contents == contents,
            part_wf(r),
    {
        let mut headers = HeaderMap::new();
        headers.set("Content-Type", HeaderType::ContentType(content_type));
        let r = MimePart { headers, contents };
        proof {
            assert(r.headers@ =~= seq![(ct_name(), HeaderType::ContentType(content_type))]);
            assert(r.headers@[0].0 == ct_name());
            assert(has_name(r.headers@, ct_name()));
            assert(get_value(r.headers@, ct_name()) == HeaderType::ContentType(content_type));
        }
        r
    }

    /// Create a multipart container of the given type.
    pub fn new_multipart(content_type: &str, contents: Vec<MimePart>) -> (r: Self)
        requires
            all_wf(contents@),
        ensures
            r.headers@.len() == 1,
            r.headers@[0].0 == ct_name(),
            r.headers@[0].1 matches HeaderType::ContentType(c) && c.c_type@
                == content_type.spec_bytes() && c.attributes@ == Seq::<(Seq<u8>, Seq<u8>)>::empty(),
            r.contents matches BodyPart::Multipart(cs) && cs == contents,
            part_wf(r),
    {
        Self::new(ContentType::new(content_type), BodyPart::Multipart(contents))
    }

    /// Create a plain text part (`text/plain`, UTF-8).
    pub fn new_text(contents: &str) -> (r: Self)
        ensures
            r.headers@.len() == 1,
            r.headers@[0].0 == ct_name(),
            r.headers@[0].1 matches HeaderType::ContentType(c) && c.c_type@ == (
            "text/plain").spec_bytes() && c.attributes@ == insert_entry(
                Seq::<(Seq<u8>, Seq<u8>)>::empty(),
                ("charset").spec_bytes(),
                ("utf-8").spec_bytes(),
            ),
            r.contents matches BodyPart::Text(d) && d@ == contents.spec_bytes(),
            part_wf(r),
    {
        Self::new(
            ContentType::new("text/plain").attribute("charset", "utf-8"),
            BodyPart::Text(str_vec(contents)),
        )
    }

    /// Create a plain text part tagged `format=flowed`.
    pub fn new_text_flowed(contents: &str) -> (r: Self)
        ensures
            r.headers@.len() == 1,
            r.headers@[0].0 == ct_name(),
            r.headers@[0].1 matches HeaderType::ContentType(c) && c.c_type@ == (
            "text/plain").spec_bytes() && c.attributes@ == insert_entry(
                insert_entry(
                    Seq::<(Seq<u8>, Seq<u8>)>::empty(),
                    ("charset").spec_bytes(),
                    ("utf-8").spec_bytes(),
                ),
                ("format").spec_bytes(),
                ("flowed").spec_bytes(),
            ),
            r.contents matches BodyPart::Text(d) && d@ == contents.spec_bytes(),
            part_wf(r),
    {
        Self::new(
            ContentType::new("text/plain").attribute("charset", "utf-8").attribute(
                "format",
                "flowed",
            ),
            BodyPart::Text(str_vec(contents)),
        )
    }

    /// Create a text part of another textual type.
    pub fn new_text_other(content_type: &str, contents: &str) -> (r: Self)
        ensures
            r.headers@.len() == 1,
            r.headers@[0].0 == ct_name(),
            r.headers@[0].1 matches HeaderType::ContentType(c) && c.c_type@
                == content_type.spec_bytes() && c.attributes@ == insert_entry(
                Seq::<(Seq<u8>, Seq<u8>)>::empty(),
                ("charset").spec_bytes(),
                ("utf-8").spec_bytes(),
            ),
            r.contents matches BodyPart::Text(d) && d@ == contents.spec_bytes(),
            part_wf(r),
    {
        Self::new(
            ContentType::new(content_type).attribute("charset", "utf-8"),
            BodyPart::Text(str_vec(contents)),
        )
    }

    /// Create an HTML part (`text/html`, UTF-8).
    pub fn new_html(contents: &str) -> (r: Self)
        ensures
            r.headers@.len() == 1,
            r.headers@[0].0 == ct_name(),
            r.headers@[0].1 matches HeaderType::ContentType(c) && c.c_type@ == (
            "text/html").spec_bytes() && c.attributes@ == insert_entry(
                Seq::<(Seq<u8>, Seq<u8>)>::empty(),
                ("charset").spec_bytes(),
                ("utf-8").spec_bytes(),
            ),
            r.contents matches BodyPart::Text(d) && d@ == contents.spec_bytes(),
            part_wf(r),
    {
        Self::new(
            ContentType::new("text/html").attribute("charset", "utf-8"),
            BodyPart::Text(str_vec(contents)),
        )
    }

    /// Create a binary part of the given type.
    pub fn new_binary(c_type: &str, contents: &[u8]) -> (r: Self)
        ensures
            r.headers@.len() == 1,
            r.headers@[0].0 == ct_name(),
            r.headers@[0].1 matches HeaderType::ContentType(c) && c.c_type@
                == c_type.spec_bytes() && c.attributes@ == Seq::<(Seq<u8>, Seq<u8>)>::empty(),
            r.contents matches BodyPart::Binary(d) && d@ == contents@,
            part_wf(r),
    {
        Self::new(ContentType::new(c_type), BodyPart::Binary(vstd::slice::slice_to_vec(contents)))
    }

    /// Mark the part as an attachment with the given file name.
    pub fn attachment(self, filename: &str) -> (r: Self)
        requires
            part_wf(self),
        ensures
            r.contents == self.contents,
            exists|c: ContentType|
                {
                    &&& c.c_type@ == ("attachment").spec_bytes()
                    &&& c.attributes@ == insert_entry(
                        Seq::<(Seq<u8>, Seq<u8>)>::empty(),
                        ("filename").spec_bytes(),
                        filename.spec_bytes(),
                    )
                    &&& r.headers@ == insert_entry(
                        self.headers@,
                        cd_name(),
                        HeaderType::ContentType(c),
                    )
                },
            part_wf(r),
    {
        proof {
            lemma_header_names_distinct();
        }
        let c = ContentType::new("attachment").attribute("filename", filename);
        self.header("Content-Disposition", HeaderType::ContentType(c))
    }

    /// Mark the part as rendered inline.
    pub fn inline(self) -> (r: Self)
        requires
            part_wf(self),
        ensures
            r.contents == self.contents,
            exists|c: ContentType|
                {
                    &&& c.c_type@ == ("inline").spec_bytes()
                    &&& c.attributes@ == Seq::<(Seq<u8>, Seq<u8>)>::empty()
                    &&& r.headers@ == insert_entry(
                        self.headers@,
                        cd_name(),
                        HeaderType::ContentType(c),
                    )
                },
            part_wf(r),
    {
        proof {
            lemma_header_names_distinct();
        }
        let c = ContentType::new("inline");
        self.header("Content-Disposition", HeaderType::ContentType(c))
    }

    /// Set the Content-Language header.
    pub fn language(self, value: &str) -> (r: Self)
        requires
            part_wf(self),
        ensures
            r.contents == self.contents,
            exists|t: crate::headers::text::Text|
                {
                    &&& t.text@ == value.spec_bytes()
                    &&& r.headers@ == insert_entry(
                        self.headers@,
                        ("Content-Language").spec_bytes(),
                        HeaderType::Text(t),
                    )
                },
            part_wf(r),
    {
        proof {
            lemma_header_names_distinct();
        }
        self.header("Content-Language", HeaderType::Text(crate::headers::text::Text::new(value)))
    }

    /// Set the Content-ID header.
    pub fn cid(self, value: &str) -> (r: Self)
        requires
            part_wf(self),
        ensures
            r.contents == self.contents,
            exists|m: crate::headers::message_id::MessageId|
                {
                    &&& m.ids() == seq![value.spec_bytes()]
                    &&& r.headers@ == insert_entry(
                        self.headers@,
                        ("Content-ID").spec_bytes(),
                        HeaderType::MessageId(m),
                    )
                },
            part_wf(r),
    {
        proof {
            lemma_header_names_distinct();
        }
        self.header(
            "Content-ID",
            HeaderType::MessageId(crate::headers::message_id::MessageId::new(value)),
        )
    }

    /// Set the Content-Location header.
    pub fn location(self, value: &str) -> (r: Self)
        requires
            part_wf(self),
        ensures
            r.contents == self.contents,
            exists|w: crate::headers::raw::Raw|
                {
                    &&& w.raw@ == value.spec_bytes()
                    &&& r.headers@ == insert_entry(
                        self.headers@,
                        ("Content-Location").spec_bytes(),
                        HeaderType::Raw(w),
                    )
                },
            part_wf(r),
    {
        proof {
            lemma_header_names_distinct();
        }
        self.header("Content-Location", HeaderType::Raw(crate::headers::raw::Raw::new(value)))
    }

    /// Set a custom header of the part.
    pub fn header(self, header: &str, value: HeaderType) -> (r: Self)
        requires
            sorted_names(self.headers@),
            value_wf(value),
        ensures
            r.contents == self.contents,
            r.headers@ == insert_entry(self.headers@, header.spec_bytes(), value),
            sorted_names(r.headers@),
            part_wf(self) && header.spec_bytes() != ct_name() ==> part_wf(r),
    {
        let mut s = self;
        s.headers.set(header, value);
        proof {
            if part_wf(self) && header.spec_bytes() != ct_name() {
                crate::namemap::lemma_insert_entry_other(
                    self.headers@,
                    header.spec_bytes(),
                    value,
                    ct_name(),
                );
                crate::namemap::lemma_insert_entry_elems(self.headers@, header.spec_bytes(), value);
                assert forall|i: int| 0 <= i < s.headers@.len() implies value_wf(
                    (#[trigger] s.headers@[i]).1,
                ) by {
                    assert(s.headers@[i] == (header.spec_bytes(), value) || exists|j: int|
                        0 <= j < self.headers@.len() && self.headers@[j] == s.headers@[i]);
                }
            }
        }
        s
    }

    /// Add a child part to a multipart container; anything else is unchanged.
    pub fn add_part(&mut self, part: MimePart)
        ensures
            final(self).headers == old(self).headers,
            match old(self).contents {
                BodyPart::Multipart(cs) => final(self).contents matches BodyPart::Multipart(cs2)
                    && cs2@ == cs@.push(part),
                _ => final(self).contents == old(self).contents,
            },
            part_wf(*old(self)) && part_wf(part) ==> part_wf(*final(self)),
    {
        match &mut self.contents {
            BodyPart::Multipart(parts) => {
                parts.push(part);
            },
            _ => {},
        }
        proof {
            if part_wf(*old(self)) && part_wf(part) {
                match old(self).contents {
                    BodyPart::Multipart(cs) => {
                        assert forall|i: int|
                            0 <= i < cs@.push(part).len() implies part_wf(
                            #[trigger] cs@.push(part)[i],
                        ) by {
                            if i < cs@.len() {
                                assert(cs@.push(part)[i] == cs@[i]);
                            }
                        }
                    },
                    _ => {},
                }
            }
        }
    }
}

/// One step of the boundary counter.
pub open spec fn next_k(k: u64) -> u64 {
    if k == u64::MAX {
        0
    } else {
        (k + 1) as u64
    }
}

/// The boundary token derived from a seed and a counter: the decimal digits
/// of each, joined by a dot.
pub open spec fn token_of(seed: u64, k: u64) -> Seq<u8> {
    dec_digits(seed as nat) + seq![46u8] + dec_digits(k as nat)
}

/// Relies on chrono: `Utc::now` reads the system clock and
/// `DateTime::timestamp_micros` turns the reading into a microsecond Unix
/// timestamp without failing. Nothing is promised of the value: a clock can
/// return anything, and callers treat it as an arbitrary seed.
#[verifier::external_body]
pub(crate) fn now_micros() -> i64 {
    chrono::Utc::now().timestamp_micros()
}

/// Relies on `String::from_utf8`: for bytes below 128 it returns `Ok` of the
/// string whose characters are exactly those bytes read as ASCII.
#[verifier::external_body]
fn ascii_string(v: Vec<u8>) -> (r: String)
    requires
        forall|i: int| 0 <= i < v@.len() ==> v@[i] < 128,
    ensures
        r@ == v@.map_values(|b: u8| b as char),
{
    match String::from_utf8(v) {
        Ok(s) => s,
        Err(_) => String::new(),
    }
}

pub proof fn lemma_dec_digits_ascii(n: nat)
    ensures
        forall|i: int| 0 <= i < dec_digits(n).len() ==> 48 <= #[trigger] dec_digits(n)[i] <= 57,
    decreases n,
{
    if n >= 10 {
        lemma_dec_digits_ascii(n / 10);
        assert forall|i: int| 0 <= i < dec_digits(n).len() implies 48 <= #[trigger] dec_digits(
            n,
        )[i] <= 57 by {
            if i < dec_digits(n / 10).len() {
                assert(dec_digits(n)[i] == dec_digits(n / 10)[i]);
            }
        }
    }
}

/// The token for a seed and counter, as bytes.
fn boundary_token(seed: u64, k: u64) -> (r: Vec<u8>)
    ensures
        r@ == token_of(seed, k),
{
    let mut v: Vec<u8> = Vec::new();
    push_dec(&mut v, seed);
    v.push(46);
    push_dec(&mut v, k);
    proof {
        assert(v@ =~= token_of(seed, k));
    }
    v
}

/// Advance the boundary counter.
fn bump(k: u64) -> (r: u64)
    ensures
        r == next_k(k),
{
    if k == u64::MAX {
        0
    } else {
        k + 1
    }
}

/// Generate a boundary token from the clock.
pub fn make_boundary() -> (r: String)
    ensures
        exists|seed: u64| r@ == token_of(seed, 0).map_values(|b: u8| b as char),
{
    let t = now_micros();
    let seed: u64 = t as u64;
    let v = boundary_token(seed, 0);
    proof {
        lemma_dec_digits_ascii(seed as nat);
        lemma_dec_digits_ascii(0nat);
    }
    ascii_string(v)
}

/// Rewrite any LF not preceded by CR to CRLF; `prev` is the byte before `s`.
pub open spec fn normalize_crlf(s: Seq<u8>, prev: u8) -> Seq<u8>
    decreases s.len(),
{
    if s.len() == 0 {
        Seq::empty()
    } else {
        (if s[0] == 10 && prev != 13 {
            seq![13u8, 10u8]
        } else {
            seq![s[0]]
        }) + normalize_crlf(s.drop_first(), s[0])
    }
}

/// The transfer-encoding header and encoded payload the writer emits for a
/// leaf's data: the classifier picks the encoding; 7-bit body content gets
/// its line endings normalized to CRLF by the writer itself.
#[verifier::opaque]
pub open spec fn encoded_body(data: Seq<u8>, is_body: bool) -> Seq<u8> {
    match spec_encoding(data) {
        EncodingType::Base64 => ("Content-Transfer-Encoding: base64\r\n\r\n").spec_bytes()
            + base64_of(data),
        EncodingType::QuotedPrintable => (
        "Content-Transfer-Encoding: quoted-printable\r\n\r\n").spec_bytes() + qp_of(data, is_body),
        EncodingType::SevenBit => ("Content-Transfer-Encoding: 7bit\r\n\r\n").spec_bytes() + (
        if is_body {
            normalize_crlf(data, 0)
        } else {
            data
        }),
    }
}

/// Classify a leaf payload, emit the Content-Transfer-Encoding header, a
/// blank line, and the encoded payload.
pub fn detect_encoding(input: &[u8], output: &mut Vec<u8>, is_body: bool)
    ensures
        final(output)@ == old(output)@ + encoded_body(input@, is_body),
{
    proof {
        reveal(encoded_body);
    }
    match get_encoding_type(input, false, is_body) {
        EncodingType::Base64 => {
            crate::bytestr::put_str(output, "Content-Transfer-Encoding: base64\r\n\r\n");
            base64_encode(input, output);
        },
        EncodingType::QuotedPrintable => {
            crate::bytestr::put_str(output, "Content-Transfer-Encoding: quoted-printable\r\n\r\n");
            quoted_printable_encode(input, output, is_body);
        },
        EncodingType::SevenBit => {
            crate::bytestr::put_str(output, "Content-Transfer-Encoding: 7bit\r\n\r\n");
            if is_body {
                let ghost mid = output@;
                let mut prev: u8 = 0;
                let mut i: usize = 0;
                proof {
                    assert(input@.skip(0) =~= input@);
                }
                while i < input.len()
                    invariant
                        0 <= i <= input@.len(),
                        mid + normalize_crlf(input@, 0) == output@ + normalize_crlf(
                            input@.skip(i as int),
                            prev,
                        ),
                    decreases input@.len() - i,
                {
                    let ghost rest = input@.skip(i as int);
                    let ghost out_pre = output@;
                    proof {
                        assert(rest[0] == input@[i as int]);
                        assert(rest.drop_first() =~= input@.skip(i as int + 1));
                    }
                    let b = input[i];
                    if b == 10 && prev != 13 {
                        output.push(13);
                        output.push(10);
                        proof {
                            assert(output@ =~= out_pre + seq![13u8, 10u8]);
                        }
                    } else {
                        output.push(b);
                        proof {
                            assert(output@ =~= out_pre + seq![b]);
                        }
                    }
                    prev = b;
                    i = i + 1;
                }
                proof {
                    assert(input@.skip(i as int) =~= Seq::<u8>::empty());
                }
            } else {
                output.extend_from_slice(input);
            }
        },
    }
}

// ----------------------------------------------------------------------
// The emission stream.
//
// The writer's output is specified as a stream of chunks: plain bytes, the
// header block that opens a multipart group (carrying its boundary token),
// the separator placed before each child, and the closing delimiter. The
// bytes on the wire are the chunks' bytes in order; the chunk structure is
// what the boundary-nesting laws speak about.
// ----------------------------------------------------------------------

/// One piece of the writer's output.
pub enum Chunk {
    /// Plain bytes of a leaf part or of a header block.
    Bytes(Seq<u8>),
    /// The header block of a multipart group: its boundary token and the
    /// block's bytes.
    Open(Seq<u8>, Seq<u8>),
    /// The separator before one child of a group: `CRLF--token CRLF`.
    Sep(Seq<u8>),
    /// The closing delimiter of a group: `CRLF--token--CRLF`.
    Close(Seq<u8>),
}

/// The separator placed before each child of a group.
pub open spec fn open_delim(b: Seq<u8>) -> Seq<u8> {
    seq![13u8, 10u8, 45u8, 45u8] + b + crlf()
}

/// The delimiter that closes a group.
pub open spec fn close_delim(b: Seq<u8>) -> Seq<u8> {
    seq![13u8, 10u8, 45u8, 45u8] + b + seq![45u8, 45u8, 13u8, 10u8]
}

/// The bytes one chunk stands for.
pub open spec fn chunk_bytes(c: Chunk) -> Seq<u8> {
    match c {
        Chunk::Bytes(b) => b,
        Chunk::Open(_, h) => h,
        Chunk::Sep(t) => open_delim(t),
        Chunk::Close(t) => close_delim(t),
    }
}

/// The bytes a stream of chunks stands for.
pub open spec fn stream_bytes(s: Seq<Chunk>) -> Seq<u8>
    decreases s.len(),
{
    if s.len() == 0 {
        Seq::empty()
    } else {
        chunk_bytes(s[0]) + stream_bytes(s.drop_first())
    }
}

pub proof fn lemma_stream_bytes_singleton(c: Chunk)
    ensures
        stream_bytes(seq![c]) == chunk_bytes(c),
{
    assert(seq![c].drop_first() =~= Seq::<Chunk>::empty());
    assert(stream_bytes(Seq::<Chunk>::empty()) =~= Seq::<u8>::empty());
    assert(stream_bytes(seq![c]) =~= chunk_bytes(c));
}

pub proof fn lemma_stream_bytes_concat(a: Seq<Chunk>, b: Seq<Chunk>)
    ensures
        stream_bytes(a + b) == stream_bytes(a) + stream_bytes(b),
    decreases a.len(),
{
    if a.len() == 0 {
        assert(a + b =~= b);
        assert(stream_bytes(a) + stream_bytes(b) =~= stream_bytes(b));
    } else {
        assert((a + b).drop_first() =~= a.drop_first() + b);
        lemma_stream_bytes_concat(a.drop_first(), b);
        assert((a + b)[0] == a[0]);
        assert(chunk_bytes(a[0]) + (stream_bytes(a.drop_first()) + stream_bytes(b)) =~= (
        chunk_bytes(a[0]) + stream_bytes(a.drop_first())) + stream_bytes(b));
    }
}

/// Whether the part's Content-Disposition marks it an attachment.
pub open spec fn spec_is_attachment(h: Seq<(Seq<u8>, HeaderType)>) -> bool {
    has_name(h, cd_name()) && (get_value(h, cd_name()) matches HeaderType::ContentType(c)
        && c.c_type@ == ("attachment").spec_bytes())
}

/// Whether the part's Content-Type names a textual type.
pub open spec fn spec_is_text_part(h: Seq<(Seq<u8>, HeaderType)>) -> bool {
    has_name(h, ct_name()) && (get_value(h, ct_name()) matches HeaderType::ContentType(c)
        && spec_is_text(c.c_type@))
}

/// The transfer-encoding line that forces base64.
pub open spec fn cte_base64() -> Seq<u8> {
    ("Content-Transfer-Encoding: base64\r\n\r\n").spec_bytes()
}

/// The bytes of a text leaf: its headers, then its payload encoded as the
/// classifier picks; attachments skip body line-ending normalization.
#[verifier::opaque]
pub open spec fn text_leaf_bytes(h: Seq<(Seq<u8>, HeaderType)>, d: Seq<u8>) -> Seq<u8> {
    headers_render(h, 0) + encoded_body(d, !spec_is_attachment(h))
}

/// The bytes of a binary leaf: as a text leaf when its type is textual,
/// else always base64, whatever the classifier would say.
#[verifier::opaque]
pub open spec fn binary_leaf_bytes(h: Seq<(Seq<u8>, HeaderType)>, d: Seq<u8>) -> Seq<u8> {
    headers_render(h, 0) + (if spec_is_text_part(h) {
        encoded_body(d, !spec_is_attachment(h))
    } else {
        cte_base64() + base64_of(d)
    })
}

/// The position of the first occurrence of `pat` in `s` at or after `i`,
/// or -1.
pub open spec fn find_at(s: Seq<u8>, pat: Seq<u8>, i: int) -> int
    decreases s.len() - i + 1,
{
    if i < 0 || i + pat.len() > s.len() {
        -1
    } else if s.subrange(i, i + pat.len()) == pat {
        i
    } else {
        find_at(s, pat, i + 1)
    }
}

/// The position of the first double quote at or after `i`, or the length.
pub open spec fn scan_quote(s: Seq<u8>, i: int) -> int
    decreases s.len() - i,
{
    if i < 0 || i >= s.len() {
        s.len() as int
    } else if s[i] == 34 {
        i
    } else {
        scan_quote(s, i + 1)
    }
}

/// The pattern that announces a caller-supplied boundary in an opaque
/// Content-Type value.
pub open spec fn bq_pat() -> Seq<u8> {
    ("boundary=\"").spec_bytes()
}

/// What opening a multipart group emits, and which boundary it scopes:
/// `Content-Type: ` and the part's Content-Type value (reusing its boundary
/// attribute, or adding a generated token), the remaining part headers, and
/// a blank line. The result is (header block bytes, boundary token, next
/// counter).
#[verifier::opaque]
pub open spec fn mp_open(h: Seq<(Seq<u8>, HeaderType)>, seed: u64, k: u64) -> (Seq<u8>, Seq<
    u8,
>, u64) {
    let prefix = ("Content-Type: ").spec_bytes();
    let rest = headers_render(remove_entry(h, ct_name()), 0) + crlf();
    if has_name(h, ct_name()) {
        match get_value(h, ct_name()) {
            HeaderType::ContentType(c) => {
                if has_name(c.attributes@, bd_name()) {
                    let tok = get_value(c.attributes@, bd_name());
                    (prefix + ct_render(c.c_type@, c.attributes@) + rest, tok, k)
                } else {
                    let tok = token_of(seed, k);
                    (
                        prefix + ct_render(c.c_type@, insert_entry(c.attributes@, bd_name(), tok))
                            + rest,
                        tok,
                        next_k(k),
                    )
                }
            },
            HeaderType::Raw(rw) => {
                let p = find_at(rw.raw@, bq_pat(), 0);
                if p >= 0 {
                    let tok = rw.raw@.subrange(
                        p + bq_pat().len(),
                        scan_quote(rw.raw@, p + bq_pat().len()),
                    );
                    (prefix + rw.raw@ + crlf() + rest, tok, k)
                } else {
                    let tok = token_of(seed, k);
                    (
                        prefix + rw.raw@ + ("; boundary=\"").spec_bytes() + tok + seq![34u8]
                            + crlf() + rest,
                        tok,
                        next_k(k),
                    )
                }
            },
            _ => {
                let tok = token_of(seed, k);
                (
                    prefix + ct_render(
                        ("multipart/mixed").spec_bytes(),
                        insert_entry(Seq::<(Seq<u8>, Seq<u8>)>::empty(), bd_name(), tok),
                    ) + rest,
                    tok,
                    next_k(k),
                )
            },
        }
    } else {
        let tok = token_of(seed, k);
        (
            prefix + ct_render(
                ("multipart/mixed").spec_bytes(),
                insert_entry(Seq::<(Seq<u8>, Seq<u8>)>::empty(), bd_name(), tok),
            ) + rest,
            tok,
            next_k(k),
        )
    }
}

/// The chunk stream one part emits, and the counter after it.
pub open spec fn emit_part(p: MimePart, seed: u64, k: u64) -> (Seq<Chunk>, u64)
    decreases p, 0nat, 0nat,
{
    match p.contents {
        BodyPart::Text(d) => (seq![Chunk::Bytes(text_leaf_bytes(p.headers@, d@))], k),
        BodyPart::Binary(d) => (seq![Chunk::Bytes(binary_leaf_bytes(p.headers@, d@))], k),
        BodyPart::Multipart(cs) => {
            let (hdr, tok, k1) = mp_open(p.headers@, seed, k);
            let (body, k2) = emit_children(cs@, 0, tok, seed, k1);
            (seq![Chunk::Open(tok, hdr)] + body + seq![Chunk::Close(tok)], k2)
        },
    }
}

/// The chunk stream of a group's children from position `i` on: each child
/// behind a separator for boundary `b`.
pub open spec fn emit_children(cs: Seq<MimePart>, i: int, b: Seq<u8>, seed: u64, k: u64) -> (Seq<
    Chunk,
>, u64)
    decreases cs, cs.len() - i, 1nat,
{
    if 0 <= i < cs.len() {
        let (head, k1) = emit_part(cs[i], seed, k);
        let (rest, k2) = emit_children(cs, i + 1, b, seed, k1);
        (seq![Chunk::Sep(b)] + head + rest, k2)
    } else {
        (Seq::empty(), k)
    }
}

/// The chunk stream of parts emitted without an enclosing boundary, as at
/// the root.
pub open spec fn plain_children(cs: Seq<MimePart>, i: int, seed: u64, k: u64) -> (Seq<Chunk>, u64)
    decreases cs, cs.len() - i, 1nat,
{
    if 0 <= i < cs.len() {
        let (head, k1) = emit_part(cs[i], seed, k);
        let (rest, k2) = plain_children(cs, i + 1, seed, k1);
        (head + rest, k2)
    } else {
        (Seq::empty(), k)
    }
}

/// The bytes one part tree serializes to, for a given token seed.
pub open spec fn part_bytes(p: MimePart, seed: u64, k: u64) -> Seq<u8> {
    stream_bytes(emit_part(p, seed, k).0)
}

pub proof fn lemma_emit_children_shift(cs: Seq<MimePart>, i: int, b: Seq<u8>, seed: u64, k: u64)
    requires
        0 <= i,
        cs.len() > 0,
    ensures
        emit_children(cs, i + 1, b, seed, k) == emit_children(cs.drop_first(), i, b, seed, k),
    decreases cs.len() - i,
{
    if i + 1 < cs.len() {
        assert(cs.drop_first()[i] == cs[i + 1]);
        lemma_emit_children_shift(cs, i + 1, b, seed, emit_part(cs[i + 1], seed, k).1);
    }
}

pub proof fn lemma_plain_children_shift(cs: Seq<MimePart>, i: int, seed: u64, k: u64)
    requires
        0 <= i,
        cs.len() > 0,
    ensures
        plain_children(cs, i + 1, seed, k) == plain_children(cs.drop_first(), i, seed, k),
    decreases cs.len() - i,
{
    if i + 1 < cs.len() {
        assert(cs.drop_first()[i] == cs[i + 1]);
        lemma_plain_children_shift(cs, i + 1, seed, emit_part(cs[i + 1], seed, k).1);
    }
}

/// How much work a part still is for the writer.
pub open spec fn part_size(p: MimePart) -> nat
    decreases p, 0nat, 0nat,
{
    1 + (match p.contents {
        BodyPart::Multipart(cs) => children_size(cs@, 0),
        _ => 0,
    })
}

/// How much work a sequence of parts from position `i` on still is.
pub open spec fn children_size(cs: Seq<MimePart>, i: int) -> nat
    decreases cs, cs.len() - i, 1nat,
{
    if 0 <= i < cs.len() {
        part_size(cs[i]) + children_size(cs, i + 1)
    } else {
        0
    }
}

pub proof fn lemma_children_size_shift(cs: Seq<MimePart>, i: int)
    requires
        0 <= i,
        cs.len() > 0,
    ensures
        children_size(cs, i + 1) == children_size(cs.drop_first(), i),
    decreases cs.len() - i,
{
    if i + 1 < cs.len() {
        assert(cs.drop_first()[i] == cs[i + 1]);
        lemma_children_size_shift(cs, i + 1);
    }
}

/// One suspended sibling cursor of the writer: the siblings still to emit
/// and the boundary that encloses them.
struct Frame {
    parts: Vec<MimePart>,
    boundary: Vec<u8>,
}

/// The chunk stream still owed for one cursor: its parts behind separators
/// and the closing delimiter when a boundary is active.
spec fn cursor_pair(cs: Seq<MimePart>, b: Option<Vec<u8>>, seed: u64, k: u64) -> (Seq<Chunk>, u64) {
    match b {
        Some(bv) => {
            let r = emit_children(cs, 0, bv@, seed, k);
            (r.0 + seq![Chunk::Close(bv@)], r.1)
        },
        None => plain_children(cs, 0, seed, k),
    }
}

/// The chunk stream still owed for the suspended frames, innermost first.
spec fn stack_stream(fs: Seq<Frame>, seed: u64, k: u64) -> (Seq<Chunk>, u64)
    decreases fs.len(),
{
    if fs.len() == 0 {
        (Seq::empty(), k)
    } else {
        let c = cursor_pair(fs.last().parts@, Some(fs.last().boundary), seed, k);
        let r = stack_stream(fs.drop_last(), seed, c.1);
        (c.0 + r.0, r.1)
    }
}

/// The bytes the writer still owes in a given state.
spec fn state_bytes(cs: Seq<MimePart>, b: Option<Vec<u8>>, fs: Seq<Frame>, seed: u64, k: u64) -> Seq<
    u8,
> {
    let c = cursor_pair(cs, b, seed, k);
    let s = stack_stream(fs, seed, c.1);
    stream_bytes(c.0 + s.0)
}

/// How much work the suspended frames still are.
spec fn stack_size(fs: Seq<Frame>) -> nat
    decreases fs.len(),
{
    if fs.len() == 0 {
        0
    } else {
        children_size(fs.last().parts@, 0) + stack_size(fs.drop_last())
    }
}

/// The closing delimiters still owed by the current cursor.
spec fn closings(b: Option<Vec<u8>>) -> int {
    if b is Some {
        1
    } else {
        0
    }
}

/// Copy a byte vector.
fn copy_bytes(v: &Vec<u8>) -> (r: Vec<u8>)
    ensures
        r@ == v@,
{
    vstd::slice::slice_to_vec(v.as_slice())
}

/// The bytes of `s` between `i` and `j`, as an owned vector.
fn sub_vec(s: &[u8], i: usize, j: usize) -> (r: Vec<u8>)
    requires
        i <= j <= s@.len(),
    ensures
        r@ == s@.subrange(i as int, j as int),
{
    vstd::slice::slice_to_vec(vstd::slice::slice_subrange(s, i, j))
}

/// The position of the first occurrence of `pat` in `s`, if any.
fn find_sub(s: &[u8], pat: &[u8]) -> (r: Option<usize>)
    ensures
        match r {
            Some(p) => find_at(s@, pat@, 0) == p && p + pat@.len() <= s@.len(),
            None => find_at(s@, pat@, 0) == -1,
        },
{
    if pat.len() == 0 {
        proof {
            assert(s@.subrange(0, 0) =~= pat@);
        }
        return Some(0);
    }
    if pat.len() > s.len() {
        return None;
    }
    let mut i: usize = 0;
    loop
        invariant
            0 <= i <= s@.len(),
            1 <= pat@.len() <= s@.len(),
            i + pat@.len() <= s@.len() + 1,
            find_at(s@, pat@, 0) == find_at(s@, pat@, i as int),
        ensures
            0 <= i,
            i + pat@.len() <= s@.len(),
            find_at(s@, pat@, 0) == find_at(s@, pat@, i as int),
            s@.subrange(i as int, i as int + pat@.len()) == pat@,
        decreases s@.len() - i,
    {
        if i > s.len() - pat.len() {
            proof {
                assert(find_at(s@, pat@, i as int) == -1);
            }
            return None;
        }
        let w = vstd::slice::slice_subrange(s, i, i + pat.len());
        if bytes_eq(w, pat) {
            break;
        }
        proof {
            assert(find_at(s@, pat@, i as int) == find_at(s@, pat@, i as int + 1));
        }
        i = i + 1;
    }
    proof {
        assert(find_at(s@, pat@, i as int) == i);
    }
    Some(i)
}

/// The position of the first double quote at or after `from`, or the length.
fn find_quote(s: &[u8], from: usize) -> (r: usize)
    requires
        from <= s@.len(),
    ensures
        r == scan_quote(s@, from as int),
        from <= r <= s@.len(),
{
    let mut i: usize = from;
    while i < s.len()
        invariant
            from <= i <= s@.len(),
            scan_quote(s@, from as int) == scan_quote(s@, i as int),
        decreases s@.len() - i,
    {
        if s[i] == 34 {
            return i;
        }
        i = i + 1;
    }
    i
}

/// Whether the part's Content-Disposition marks it an attachment.
fn part_is_attachment(h: &HeaderMap) -> (r: bool)
    ensures
        r == spec_is_attachment(h@),
{
    match h.get("Content-Disposition".as_bytes()) {
        Some(v) => match v.as_content_type() {
            Some(c) => c.is_attachment(),
            None => false,
        },
        None => false,
    }
}

/// Whether the part's Content-Type names a textual type.
fn part_is_text(h: &HeaderMap) -> (r: bool)
    ensures
        r == spec_is_text_part(h@),
{
    match h.get("Content-Type".as_bytes()) {
        Some(v) => match v.as_content_type() {
            Some(c) => c.is_text(),
            None => false,
        },
        None => false,
    }
}

/// Emit a text leaf: headers, then the encoded payload.
fn write_text_leaf(h: &HeaderMap, data: &Vec<u8>, out: &mut Vec<u8>)
    ensures
        final(out)@ == old(out)@ + text_leaf_bytes(h@, data@),
{
    proof {
        reveal(text_leaf_bytes);
    }
    let is_att = part_is_attachment(h);
    write_headers(h, out);
    detect_encoding(data.as_slice(), out, !is_att);
    proof {
        assert(out@ =~= old(out)@ + text_leaf_bytes(h@, data@));
    }
}

/// Emit a binary leaf: headers, then the payload, base64 unless the type
/// is textual.
fn write_binary_leaf(h: &HeaderMap, data: &Vec<u8>, out: &mut Vec<u8>)
    ensures
        final(out)@ == old(out)@ + binary_leaf_bytes(h@, data@),
{
    proof {
        reveal(binary_leaf_bytes);
    }
    let is_text = part_is_text(h);
    let is_att = part_is_attachment(h);
    write_headers(h, out);
    if is_text {
        detect_encoding(data.as_slice(), out, !is_att);
    } else {
        crate::bytestr::put_str(out, "Content-Transfer-Encoding: base64\r\n\r\n");
        base64_encode(data.as_slice(), out);
    }
    proof {
        assert(out@ =~= old(out)@ + binary_leaf_bytes(h@, data@));
    }
}

/// Emit the header block that opens a multipart group, returning its
/// boundary token and the advanced counter.
#[verifier::rlimit(100)]
fn open_group(h: HeaderMap, out: &mut Vec<u8>, seed: u64, k: u64) -> (r: (Vec<u8>, u64))
    requires
        sorted_names(h@),
        forall|i: int| 0 <= i < h@.len() ==> value_wf((#[trigger] h@[i]).1),
    ensures
        final(out)@ == old(out)@ + mp_open(h@, seed, k).0,
        r.0@ == mp_open(h@, seed, k).1,
        r.1 == mp_open(h@, seed, k).2,
{
    proof {
        reveal(mp_open);
    }
    let ghost h0 = h@;
    let mut h = h;
    crate::bytestr::put_str(out, "Content-Type: ");
    let ghost out1 = out@;
    let ct = h.remove("Content-Type".as_bytes());
    let tok: Vec<u8>;
    let k2: u64;
    match ct {
        Some(HeaderType::ContentType(c)) => {
            proof {
                assert(get_value(h0, ct_name()) == HeaderType::ContentType(c));
                crate::namemap::lemma_get_value_is_entry(h0, ct_name());
                assert(value_wf(HeaderType::ContentType(c)));
            }
            let ghost c0 = c;
            let mut c = c;
            let existing = match c.attributes.get("boundary".as_bytes()) {
                Some(b) => Some(copy_bytes(b)),
                None => None,
            };
            match existing {
                Some(b) => {
                    proof {
                        assert(has_name(c0.attributes@, bd_name()));
                        assert(b@ == mp_open(h0, seed, k).1);
                    }
                    tok = b;
                    k2 = k;
                },
                None => {
                    let t = boundary_token(seed, k);
                    c.attributes.insert("boundary", copy_bytes(&t));
                    proof {
                        assert(c.attributes@ == insert_entry(
                            c0.attributes@,
                            bd_name(),
                            token_of(seed, k),
                        ));
                        assert(t@ == mp_open(h0, seed, k).1);
                    }
                    tok = t;
                    k2 = bump(k);
                },
            }
            c.write_header(out, 14);
            proof {
                assert(out@ == out1 + ct_render(c.c_type@, c.attributes@));
            }
        },
        Some(HeaderType::Raw(rw)) => {
            proof {
                assert(get_value(h0, ct_name()) == HeaderType::Raw(rw));
            }
            let pat = "boundary=\"".as_bytes();
            let raw_len = rw.raw.len();
            match find_sub(rw.raw.as_slice(), pat) {
                Some(p) => {
                    proof {
                        assert(p + pat@.len() <= raw_len);
                    }
                    let e = p + pat.len();
                    let q = find_quote(rw.raw.as_slice(), e);
                    tok = sub_vec(rw.raw.as_slice(), e, q);
                    proof {
                        assert(tok@ == mp_open(h0, seed, k).1);
                    }
                    out.extend_from_slice(rw.raw.as_slice());
                    put_crlf(out);
                    proof {
                        assert(out@ =~= out1 + (rw.raw@ + crlf()));
                    }
                    k2 = k;
                },
                None => {
                    tok = boundary_token(seed, k);
                    out.extend_from_slice(rw.raw.as_slice());
                    crate::bytestr::put_str(out, "; boundary=\"");
                    out.extend_from_slice(tok.as_slice());
                    out.push(34);
                    put_crlf(out);
                    proof {
                        assert(out@ =~= out1 + (rw.raw@ + ("; boundary=\"").spec_bytes() + token_of(
                            seed,
                            k,
                        ) + seq![34u8] + crlf()));
                    }
                    k2 = bump(k);
                },
            }
        },
        _ => {
            tok = boundary_token(seed, k);
            let mut c = ContentType::new("multipart/mixed");
            c.attributes.insert("boundary", copy_bytes(&tok));
            c.write_header(out, 14);
            proof {
                assert(c.attributes@ == insert_entry(
                    Seq::<(Seq<u8>, Seq<u8>)>::empty(),
                    bd_name(),
                    token_of(seed, k),
                ));
                assert(out@ == out1 + ct_render(
                    ("multipart/mixed").spec_bytes(),
                    insert_entry(Seq::<(Seq<u8>, Seq<u8>)>::empty(), bd_name(), token_of(seed, k)),
                ));
            }
            k2 = bump(k);
        },
    }
    let ghost out2 = out@;
    write_headers(&h, out);
    put_crlf(out);
    proof {
        assert(out@ =~= out2 + (headers_render(remove_entry(h0, ct_name()), 0) + crlf()));
        assert(out@ =~= old(out)@ + mp_open(h0, seed, k).0);
    }
    (tok, k2)
}

/// Taking the first part of a bounded cursor splits off its separator and
/// its own stream.
proof fn lemma_step_bounded(cs: Seq<MimePart>, bv: Vec<u8>, fs: Seq<Frame>, seed: u64, k: u64)
    requires
        cs.len() > 0,
    ensures
        state_bytes(cs, Some(bv), fs, seed, k) == open_delim(bv@) + stream_bytes(
            emit_part(cs[0], seed, k).0,
        ) + state_bytes(cs.drop_first(), Some(bv), fs, seed, emit_part(cs[0], seed, k).1),
{
    let head = emit_part(cs[0], seed, k);
    let rest = emit_children(cs, 1, bv@, seed, head.1);
    lemma_emit_children_shift(cs, 0, bv@, seed, head.1);
    let a = seq![Chunk::Sep(bv@)];
    let c = seq![Chunk::Close(bv@)];
    let ss = stack_stream(fs, seed, rest.1);
    assert(emit_children(cs, 0, bv@, seed, k).0 == a + head.0 + rest.0);
    assert(emit_children(cs, 0, bv@, seed, k).1 == rest.1);
    lemma_stream_bytes_concat((a + head.0 + rest.0) + c, ss.0);
    lemma_stream_bytes_concat(a + head.0 + rest.0, c);
    lemma_stream_bytes_concat(a + head.0, rest.0);
    lemma_stream_bytes_concat(a, head.0);
    lemma_stream_bytes_concat(rest.0 + c, ss.0);
    lemma_stream_bytes_concat(rest.0, c);
    lemma_stream_bytes_singleton(Chunk::Sep(bv@));
    lemma_stream_bytes_singleton(Chunk::Close(bv@));
    assert(stream_bytes(a) == open_delim(bv@));
    assert(stream_bytes(c) == close_delim(bv@));
    assert(state_bytes(cs, Some(bv), fs, seed, k) =~= open_delim(bv@) + stream_bytes(head.0)
        + state_bytes(cs.drop_first(), Some(bv), fs, seed, head.1));
}

/// Taking the first part of the root cursor splits off its own stream.
proof fn lemma_step_plain(cs: Seq<MimePart>, fs: Seq<Frame>, seed: u64, k: u64)
    requires
        cs.len() > 0,
    ensures
        state_bytes(cs, None, fs, seed, k) == stream_bytes(emit_part(cs[0], seed, k).0)
            + state_bytes(cs.drop_first(), None, fs, seed, emit_part(cs[0], seed, k).1),
{
    let head = emit_part(cs[0], seed, k);
    let rest = plain_children(cs, 1, seed, head.1);
    lemma_plain_children_shift(cs, 0, seed, head.1);
    let ss = stack_stream(fs, seed, rest.1);
    assert(plain_children(cs, 0, seed, k).0 == head.0 + rest.0);
    lemma_stream_bytes_concat(head.0 + rest.0, ss.0);
    lemma_stream_bytes_concat(head.0, rest.0);
    lemma_stream_bytes_concat(rest.0, ss.0);
    assert(state_bytes(cs, None, fs, seed, k) =~= stream_bytes(head.0) + state_bytes(
        cs.drop_first(),
        None,
        fs,
        seed,
        head.1,
    ));
}

/// Descending into a group: the new cursor over its children, under its
/// token, with the old cursor suspended, owes the children's stream, the
/// closing delimiter, and what the old cursor still owed.
proof fn lemma_descend(
    children: Seq<MimePart>,
    tok: Vec<u8>,
    rest_parts: Vec<MimePart>,
    bv: Vec<u8>,
    fs: Seq<Frame>,
    seed: u64,
    k1: u64,
)
    ensures
        state_bytes(
            children,
            Some(tok),
            fs.push(Frame { parts: rest_parts, boundary: bv }),
            seed,
            k1,
        ) == stream_bytes(emit_children(children, 0, tok@, seed, k1).0) + close_delim(tok@)
            + state_bytes(
            rest_parts@,
            Some(bv),
            fs,
            seed,
            emit_children(children, 0, tok@, seed, k1).1,
        ),
{
    let f = Frame { parts: rest_parts, boundary: bv };
    let fs2 = fs.push(f);
    assert(fs2.last() == f);
    assert(fs2.drop_last() =~= fs);
    let ec = emit_children(children, 0, tok@, seed, k1);
    let c = seq![Chunk::Close(tok@)];
    let cp2 = cursor_pair(rest_parts@, Some(bv), seed, ec.1);
    let ss2 = stack_stream(fs, seed, cp2.1);
    assert(stack_stream(fs2, seed, ec.1).0 == cp2.0 + ss2.0);
    lemma_stream_bytes_concat(ec.0 + c, cp2.0 + ss2.0);
    lemma_stream_bytes_concat(ec.0, c);
    lemma_stream_bytes_singleton(Chunk::Close(tok@));
    assert(stream_bytes(c) == close_delim(tok@));
    assert(state_bytes(children, Some(tok), fs2, seed, k1) =~= stream_bytes(ec.0) + close_delim(
        tok@,
    ) + state_bytes(rest_parts@, Some(bv), fs, seed, ec.1));
}

/// A bounded cursor whose head is a multipart part: its state splits into
/// the separator, the group's header block, and the state after descending,
/// with the rest of the cursor suspended in a new frame.
proof fn lemma_multipart_some(
    cs0: Seq<MimePart>,
    bv0: Vec<u8>,
    fs0: Seq<Frame>,
    f: Frame,
    seed: u64,
    k0: u64,
    hv: Seq<(Seq<u8>, HeaderType)>,
    cvs: Seq<MimePart>,
    tokv: Vec<u8>,
)
    requires
        cs0.len() > 0,
        cs0[0].headers@ == hv,
        cs0[0].contents matches BodyPart::Multipart(ch) && ch@ == cvs,
        f.parts@ == cs0.drop_first(),
        f.boundary == bv0,
        tokv@ == mp_open(hv, seed, k0).1,
    ensures
        state_bytes(cs0, Some(bv0), fs0, seed, k0) == open_delim(bv0@) + mp_open(hv, seed, k0).0
            + state_bytes(cvs, Some(tokv), fs0.push(f), seed, mp_open(hv, seed, k0).2),
{
    lemma_step_bounded(cs0, bv0, fs0, seed, k0);
    let mo = mp_open(hv, seed, k0);
    let st = emit_part(cs0[0], seed, k0);
    let ec = emit_children(cvs, 0, mo.1, seed, mo.2);
    assert(st.0 == seq![Chunk::Open(mo.1, mo.0)] + ec.0 + seq![Chunk::Close(mo.1)]);
    assert(st.1 == ec.1);
    lemma_stream_bytes_concat(seq![Chunk::Open(mo.1, mo.0)] + ec.0, seq![Chunk::Close(mo.1)]);
    lemma_stream_bytes_concat(seq![Chunk::Open(mo.1, mo.0)], ec.0);
    lemma_stream_bytes_singleton(Chunk::Open(mo.1, mo.0));
    lemma_stream_bytes_singleton(Chunk::Close(mo.1));
    assert(stream_bytes(st.0) =~= mo.0 + stream_bytes(ec.0) + close_delim(mo.1));
    lemma_descend(cvs, tokv, f.parts, f.boundary, fs0, seed, mo.2);
    assert(Frame { parts: f.parts, boundary: f.boundary } == f);
    assert(state_bytes(cs0, Some(bv0), fs0, seed, k0) =~= open_delim(bv0@) + mo.0 + state_bytes(
        cvs,
        Some(tokv),
        fs0.push(f),
        seed,
        mo.2,
    ));
}

/// The root cursor holding one multipart part: its state splits into the
/// group's header block and the state after descending; nothing is
/// suspended.
proof fn lemma_multipart_none(
    cs0: Seq<MimePart>,
    fs0: Seq<Frame>,
    seed: u64,
    k0: u64,
    hv: Seq<(Seq<u8>, HeaderType)>,
    cvs: Seq<MimePart>,
    tokv: Vec<u8>,
)
    requires
        cs0.len() == 1,
        fs0.len() == 0,
        cs0[0].headers@ == hv,
        cs0[0].contents matches BodyPart::Multipart(ch) && ch@ == cvs,
        tokv@ == mp_open(hv, seed, k0).1,
    ensures
        state_bytes(cs0, None, fs0, seed, k0) == mp_open(hv, seed, k0).0 + state_bytes(
            cvs,
            Some(tokv),
            fs0,
            seed,
            mp_open(hv, seed, k0).2,
        ),
{
    lemma_step_plain(cs0, fs0, seed, k0);
    let mo = mp_open(hv, seed, k0);
    let st = emit_part(cs0[0], seed, k0);
    let ec = emit_children(cvs, 0, mo.1, seed, mo.2);
    assert(st.0 == seq![Chunk::Open(mo.1, mo.0)] + ec.0 + seq![Chunk::Close(mo.1)]);
    assert(st.1 == ec.1);
    lemma_stream_bytes_concat(seq![Chunk::Open(mo.1, mo.0)] + ec.0, seq![Chunk::Close(mo.1)]);
    lemma_stream_bytes_concat(seq![Chunk::Open(mo.1, mo.0)], ec.0);
    lemma_stream_bytes_singleton(Chunk::Open(mo.1, mo.0));
    lemma_stream_bytes_singleton(Chunk::Close(mo.1));
    assert(stream_bytes(st.0) =~= mo.0 + stream_bytes(ec.0) + close_delim(mo.1));
    // what the emptied root cursor still owes is nothing
    assert(plain_children(cs0.drop_first(), 0, seed, ec.1).0 =~= Seq::<Chunk>::empty());
    assert(stack_stream(fs0, seed, ec.1).0 =~= Seq::<Chunk>::empty());
    assert(state_bytes(cs0.drop_first(), None, fs0, seed, ec.1) =~= Seq::<u8>::empty());
    // the state after descending
    let cp = cursor_pair(cvs, Some(tokv), seed, mo.2);
    assert(cp.0 == ec.0 + seq![Chunk::Close(tokv@)]);
    assert(stack_stream(fs0, seed, cp.1).0 =~= Seq::<Chunk>::empty());
    assert(cp.0 + stack_stream(fs0, seed, cp.1).0 =~= cp.0);
    lemma_stream_bytes_concat(ec.0, seq![Chunk::Close(tokv@)]);
    lemma_stream_bytes_singleton(Chunk::Close(tokv@));
    assert(state_bytes(cvs, Some(tokv), fs0, seed, mo.2) =~= stream_bytes(ec.0) + close_delim(
        tokv@,
    ));
    assert(state_bytes(cs0, None, fs0, seed, k0) =~= mo.0 + state_bytes(
        cvs,
        Some(tokv),
        fs0,
        seed,
        mo.2,
    ));
}

/// An exhausted bounded cursor: its state is the closing delimiter, then
/// the state of the innermost suspended frame, resumed.
proof fn lemma_pop(fs0: Seq<Frame>, bv: Vec<u8>, seed: u64, k0: u64)
    requires
        fs0.len() > 0,
    ensures
        state_bytes(Seq::<MimePart>::empty(), Some(bv), fs0, seed, k0) == close_delim(bv@)
            + state_bytes(
            fs0.last().parts@,
            Some(fs0.last().boundary),
            fs0.drop_last(),
            seed,
            k0,
        ),
{
    let cp = cursor_pair(Seq::<MimePart>::empty(), Some(bv), seed, k0);
    assert(cp.0 =~= seq![Chunk::Close(bv@)]);
    assert(cp.1 == k0);
    let f = fs0.last();
    let cp2 = cursor_pair(f.parts@, Some(f.boundary), seed, k0);
    let rest = stack_stream(fs0.drop_last(), seed, cp2.1);
    assert(stack_stream(fs0, seed, k0).0 == cp2.0 + rest.0);
    lemma_stream_bytes_singleton(Chunk::Close(bv@));
    lemma_stream_bytes_concat(cp.0, stack_stream(fs0, seed, k0).0);
    lemma_stream_bytes_concat(cp2.0, rest.0);
    assert(state_bytes(Seq::<MimePart>::empty(), Some(bv), fs0, seed, k0) =~= close_delim(bv@)
        + state_bytes(f.parts@, Some(f.boundary), fs0.drop_last(), seed, k0));
}

/// An exhausted bounded cursor above an empty stack: its state is exactly
/// the closing delimiter.
proof fn lemma_close_last(fs0: Seq<Frame>, bv: Vec<u8>, seed: u64, k0: u64)
    requires
        fs0.len() == 0,
    ensures
        state_bytes(Seq::<MimePart>::empty(), Some(bv), fs0, seed, k0) == close_delim(bv@),
{
    let cp = cursor_pair(Seq::<MimePart>::empty(), Some(bv), seed, k0);
    assert(cp.0 =~= seq![Chunk::Close(bv@)]);
    assert(stack_stream(fs0, seed, cp.1).0 =~= Seq::<Chunk>::empty());
    assert(cp.0 + stack_stream(fs0, seed, cp.1).0 =~= cp.0);
    lemma_stream_bytes_singleton(Chunk::Close(bv@));
    assert(state_bytes(Seq::<MimePart>::empty(), Some(bv), fs0, seed, k0) =~= close_delim(bv@));
}

/// An exhausted root cursor above an empty stack owes nothing.
proof fn lemma_done(cs0: Seq<MimePart>, fs0: Seq<Frame>, seed: u64, k0: u64)
    requires
        cs0.len() == 0,
        fs0.len() == 0,
    ensures
        state_bytes(cs0, None, fs0, seed, k0) == Seq::<u8>::empty(),
{
    assert(cursor_pair(cs0, None, seed, k0).0 =~= Seq::<Chunk>::empty());
    assert(stack_stream(fs0, seed, k0).0 =~= Seq::<Chunk>::empty());
    assert(cursor_pair(cs0, None, seed, k0).0 + stack_stream(fs0, seed, k0).0
        =~= Seq::<Chunk>::empty());
    assert(state_bytes(cs0, None, fs0, seed, k0) =~= Seq::<u8>::empty());
}

impl MimePart {
    /// Serialize the part tree, consuming it. The traversal is iterative:
    /// an explicit stack of suspended sibling cursors replaces recursion, so
    /// the nesting depth of the tree never grows the call stack. The output
    /// appended is the tree's emission for some boundary-token seed drawn
    /// from the clock.
    #[verifier::rlimit(100)]
    pub fn write_part(self, output: &mut Vec<u8>)
        requires
            part_wf(self),
        ensures
            exists|seed: u64| final(output)@ == old(output)@ + part_bytes(self, seed, 0),
    {
        let t = now_micros();
        let seed: u64 = #[verifier::truncate] (t as u64);
        let ghost root = self;
        let ghost out0 = output@;
        let mut cur: Vec<MimePart> = Vec::new();
        cur.push(self);
        let mut cur_b: Option<Vec<u8>> = None;
        let mut stack: Vec<Frame> = Vec::new();
        let mut k: u64 = 0;
        proof {
            assert(cur@ =~= seq![root]);
            assert(plain_children(cur@, 1, seed, emit_part(root, seed, 0).1) == (
                Seq::<Chunk>::empty(),
                emit_part(root, seed, 0).1,
            ));
            assert(plain_children(cur@, 0, seed, 0).0 =~= emit_part(root, seed, 0).0);
            assert(stack_stream(stack@, seed, plain_children(cur@, 0, seed, 0).1).0
                =~= Seq::<Chunk>::empty());
            assert(plain_children(cur@, 0, seed, 0).0 + Seq::<Chunk>::empty() =~= emit_part(
                root,
                seed,
                0,
            ).0);
            assert(state_bytes(cur@, cur_b, stack@, seed, 0) == part_bytes(root, seed, 0));
        }
        loop
            invariant_except_break
                out0 == old(output)@,
                all_wf(cur@),
                forall|j: int| 0 <= j < stack@.len() ==> all_wf((#[trigger] stack@[j]).parts@),
                cur_b is None ==> stack@.len() == 0 && cur@.len() <= 1,
                out0 + part_bytes(root, seed, 0) == output@ + state_bytes(
                    cur@,
                    cur_b,
                    stack@,
                    seed,
                    k,
                ),
            ensures
                output@ == out0 + part_bytes(root, seed, 0),
            decreases 2 * (children_size(cur@, 0) + stack_size(stack@)) + stack@.len() + closings(
                cur_b,
            ),
        {
            let ghost cs0 = cur@;
            let ghost b0 = cur_b;
            let ghost fs0 = stack@;
            let ghost k0 = k;
            let ghost o0 = output@;
            if cur.len() == 0 {
                match cur_b {
                    Some(bv) => {
                        output.push(13);
                        output.push(10);
                        output.push(45);
                        output.push(45);
                        output.extend_from_slice(bv.as_slice());
                        output.push(45);
                        output.push(45);
                        output.push(13);
                        output.push(10);
                        proof {
                            assert(cs0 =~= Seq::<MimePart>::empty());
                            assert(output@ =~= o0 + close_delim(bv@));
                        }
                        match stack.pop() {
                            Some(f) => {
                                proof {
                                    assert(fs0.last() == f);
                                    assert(stack@ =~= fs0.drop_last());
                                    lemma_pop(fs0, bv, seed, k0);
                                    assert(all_wf(f.parts@));
                                    assert(stack_size(fs0) == children_size(f.parts@, 0)
                                        + stack_size(stack@));
                                }
                                cur = f.parts;
                                cur_b = Some(f.boundary);
                                proof {
                                    assert(output@ + state_bytes(cur@, cur_b, stack@, seed, k)
                                        =~= out0 + part_bytes(root, seed, 0));
                                }
                            },
                            None => {
                                proof {
                                    lemma_close_last(fs0, bv, seed, k0);
                                    assert(output@ =~= out0 + part_bytes(root, seed, 0));
                                }
                                break;
                            },
                        }
                    },
                    None => {
                        proof {
                            assert(cs0 =~= Seq::<MimePart>::empty());
                            lemma_done(cs0, fs0, seed, k0);
                            assert(output@ =~= out0 + part_bytes(root, seed, 0));
                        }
                        break;
                    },
                }
            } else {
                let part = cur.remove(0);
                proof {
                    assert(cur@ =~= cs0.drop_first());
                    assert(part == cs0[0]);
                    assert(part_wf(part));
                    assert forall|i: int| 0 <= i < cur@.len() implies part_wf(
                        #[trigger] cur@[i],
                    ) by {
                        assert(cur@[i] == cs0[i + 1]);
                    }
                    lemma_children_size_shift(cs0, 0);
                    assert(children_size(cs0, 0) == part_size(cs0[0]) + children_size(cur@, 0));
                }
                match &cur_b {
                    Some(bv) => {
                        output.push(13);
                        output.push(10);
                        output.push(45);
                        output.push(45);
                        output.extend_from_slice(bv.as_slice());
                        output.push(13);
                        output.push(10);
                        proof {
                            assert(output@ =~= o0 + open_delim(bv@));
                        }
                    },
                    None => {},
                }
                let MimePart { headers: ph, contents: pc } = part;
                match pc {
                    BodyPart::Text(d) => {
                        write_text_leaf(&ph, &d, output);
                        proof {
                            let st = emit_part(cs0[0], seed, k0);
                            assert(st.0 =~= seq![Chunk::Bytes(text_leaf_bytes(ph@, d@))]);
                            assert(st.1 == k0);
                            lemma_stream_bytes_singleton(Chunk::Bytes(text_leaf_bytes(ph@, d@)));
                            assert(stream_bytes(st.0) == text_leaf_bytes(ph@, d@));
                            match b0 {
                                Some(bv0) => {
                                    lemma_step_bounded(cs0, bv0, fs0, seed, k0);
                                },
                                None => {
                                    lemma_step_plain(cs0, fs0, seed, k0);
                                },
                            }
                            assert(output@ + state_bytes(cur@, cur_b, stack@, seed, k) =~= out0
                                + part_bytes(root, seed, 0));
                        }
                    },
                    BodyPart::Binary(d) => {
                        write_binary_leaf(&ph, &d, output);
                        proof {
                            let st = emit_part(cs0[0], seed, k0);
                            assert(st.0 =~= seq![Chunk::Bytes(binary_leaf_bytes(ph@, d@))]);
                            assert(st.1 == k0);
                            lemma_stream_bytes_singleton(Chunk::Bytes(binary_leaf_bytes(ph@, d@)));
                            assert(stream_bytes(st.0) == binary_leaf_bytes(ph@, d@));
                            match b0 {
                                Some(bv0) => {
                                    lemma_step_bounded(cs0, bv0, fs0, seed, k0);
                                },
                                None => {
                                    lemma_step_plain(cs0, fs0, seed, k0);
                                },
                            }
                            assert(output@ + state_bytes(cur@, cur_b, stack@, seed, k) =~= out0
                                + part_bytes(root, seed, 0));
                        }
                    },
                    BodyPart::Multipart(children) => {
                        let ghost kept = cur@;
                        let ghost cvs = children@;
                        match cur_b {
                            Some(bv) => {
                                stack.push(Frame { parts: cur, boundary: bv });
                                cur = Vec::new();
                            },
                            None => {},
                        }
                        let r = open_group(ph, output, seed, k);
                        let tok = r.0;
                        k = r.1;
                        let ghost tokv = tok;
                        cur = children;
                        cur_b = Some(tok);
                        proof {
                            let mo = mp_open(ph@, seed, k0);
                            assert(tokv@ == mo.1);
                            assert(k == mo.2);
                            assert(cur@ == cvs);
                            assert(part_size(cs0[0]) == 1 + children_size(cvs, 0));
                            match b0 {
                                Some(bv0) => {
                                    let f = stack@.last();
                                    assert(stack@ =~= fs0.push(f));
                                    assert(f.parts@ == kept);
                                    assert(f.boundary == bv0);
                                    lemma_multipart_some(
                                        cs0,
                                        bv0,
                                        fs0,
                                        f,
                                        seed,
                                        k0,
                                        ph@,
                                        cvs,
                                        tokv,
                                    );
                                    assert(output@ =~= o0 + open_delim(bv0@) + mo.0);
                                    assert(stack_size(stack@) == children_size(kept, 0)
                                        + stack_size(fs0)) by {
                                        assert(stack@.drop_last() =~= fs0);
                                    }
                                    assert(output@ + state_bytes(cur@, cur_b, stack@, seed, k)
                                        =~= out0 + part_bytes(root, seed, 0));
                                },
                                None => {
                                    assert(kept.len() == 0);
                                    assert(stack@ =~= fs0);
                                    lemma_multipart_none(cs0, fs0, seed, k0, ph@, cvs, tokv);
                                    assert(output@ =~= o0 + mo.0);
                                    assert(children_size(kept, 0) == 0);
                                    assert(output@ + state_bytes(cur@, cur_b, stack@, seed, k)
                                        =~= out0 + part_bytes(root, seed, 0));
                                },
                            }
                        }
                    },
                }
            }
        }
        proof {
            assert(output@ == out0 + part_bytes(root, seed, 0));
        }
    }
}

// ----------------------------------------------------------------------
// Boundary-nesting laws.
// ----------------------------------------------------------------------

/// Run the delimiter discipline of a chunk stream against a stack of open
/// boundary tokens: a group's header block pushes its token, a separator
/// must carry the innermost open token, the closing delimiter must carry it
/// too and pops it. `None` means some delimiter did not match.
pub open spec fn run_stack(s: Seq<Chunk>, st: Seq<Seq<u8>>) -> Option<Seq<Seq<u8>>>
    decreases s.len(),
{
    if s.len() == 0 {
        Some(st)
    } else {
        match s[0] {
            Chunk::Bytes(_) => run_stack(s.drop_first(), st),
            Chunk::Open(tk, _) => run_stack(s.drop_first(), st.push(tk)),
            Chunk::Sep(tk) => if st.len() > 0 && st.last() == tk {
                run_stack(s.drop_first(), st)
            } else {
                None
            },
            Chunk::Close(tk) => if st.len() > 0 && st.last() == tk {
                run_stack(s.drop_first(), st.drop_last())
            } else {
                None
            },
        }
    }
}

/// How many groups a stream opens.
pub open spec fn count_opens(s: Seq<Chunk>) -> int
    decreases s.len(),
{
    if s.len() == 0 {
        0
    } else {
        (if s[0] is Open {
            1int
        } else {
            0int
        }) + count_opens(s.drop_first())
    }
}

/// How many closing delimiters a stream emits.
pub open spec fn count_closes(s: Seq<Chunk>) -> int
    decreases s.len(),
{
    if s.len() == 0 {
        0
    } else {
        (if s[0] is Close {
            1int
        } else {
            0int
        }) + count_closes(s.drop_first())
    }
}

pub proof fn lemma_run_stack_concat(a: Seq<Chunk>, b: Seq<Chunk>, st: Seq<Seq<u8>>)
    ensures
        run_stack(a + b, st) == (match run_stack(a, st) {
            Some(m) => run_stack(b, m),
            None => None,
        }),
    decreases a.len(),
{
    if a.len() == 0 {
        assert(a + b =~= b);
    } else {
        assert((a + b).drop_first() =~= a.drop_first() + b);
        assert((a + b)[0] == a[0]);
        match a[0] {
            Chunk::Bytes(_) => {
                lemma_run_stack_concat(a.drop_first(), b, st);
            },
            Chunk::Open(tk, _) => {
                lemma_run_stack_concat(a.drop_first(), b, st.push(tk));
            },
            Chunk::Sep(tk) => {
                if st.len() > 0 && st.last() == tk {
                    lemma_run_stack_concat(a.drop_first(), b, st);
                }
            },
            Chunk::Close(tk) => {
                if st.len() > 0 && st.last() == tk {
                    lemma_run_stack_concat(a.drop_first(), b, st.drop_last());
                }
            },
        }
    }
}

/// A run that succeeds pays for every close with an open.
pub proof fn lemma_run_stack_counts(s: Seq<Chunk>, st: Seq<Seq<u8>>)
    requires
        run_stack(s, st) is Some,
    ensures
        run_stack(s, st)->Some_0.len() == st.len() + count_opens(s) - count_closes(s),
    decreases s.len(),
{
    if s.len() > 0 {
        match s[0] {
            Chunk::Bytes(_) => {
                lemma_run_stack_counts(s.drop_first(), st);
            },
            Chunk::Open(tk, _) => {
                lemma_run_stack_counts(s.drop_first(), st.push(tk));
            },
            Chunk::Sep(tk) => {
                lemma_run_stack_counts(s.drop_first(), st);
            },
            Chunk::Close(tk) => {
                lemma_run_stack_counts(s.drop_first(), st.drop_last());
            },
        }
    }
}

/// A part's stream leaves any surrounding stack of open tokens unchanged.
pub proof fn lemma_part_stream_neutral(p: MimePart, seed: u64, k: u64, st: Seq<Seq<u8>>)
    ensures
        run_stack(emit_part(p, seed, k).0, st) == Some(st),
    decreases p, 0nat, 0nat,
{
    match p.contents {
        BodyPart::Text(d) => {
            let s = emit_part(p, seed, k).0;
            assert(s.drop_first() =~= Seq::<Chunk>::empty());
            assert(run_stack(Seq::<Chunk>::empty(), st) == Some(st));
        },
        BodyPart::Binary(d) => {
            let s = emit_part(p, seed, k).0;
            assert(s.drop_first() =~= Seq::<Chunk>::empty());
            assert(run_stack(Seq::<Chunk>::empty(), st) == Some(st));
        },
        BodyPart::Multipart(cs) => {
            let mo = mp_open(p.headers@, seed, k);
            let ec = emit_children(cs@, 0, mo.1, seed, mo.2);
            let op = seq![Chunk::Open(mo.1, mo.0)];
            let cl = seq![Chunk::Close(mo.1)];
            lemma_run_stack_concat(op + ec.0, cl, st);
            lemma_run_stack_concat(op, ec.0, st);
            assert(run_stack(op, st) == Some(st.push(mo.1))) by {
                assert(op.drop_first() =~= Seq::<Chunk>::empty());
                assert(run_stack(Seq::<Chunk>::empty(), st.push(mo.1)) == Some(st.push(mo.1)));
            }
            lemma_children_stream_neutral(cs@, 0, mo.1, seed, mo.2, st.push(mo.1));
            assert(run_stack(cl, st.push(mo.1)) == Some(st)) by {
                assert(cl.drop_first() =~= Seq::<Chunk>::empty());
                assert(st.push(mo.1).last() == mo.1);
                assert(st.push(mo.1).drop_last() =~= st);
                assert(run_stack(Seq::<Chunk>::empty(), st.push(mo.1).drop_last()) == Some(
                    st.push(mo.1).drop_last(),
                ));
            }
        },
    }
}

/// A children stream under boundary `b` leaves a stack whose innermost open
/// token is `b` unchanged.
pub proof fn lemma_children_stream_neutral(
    cs: Seq<MimePart>,
    i: int,
    b: Seq<u8>,
    seed: u64,
    k: u64,
    st: Seq<Seq<u8>>,
)
    requires
        st.len() > 0,
        st.last() == b,
    ensures
        run_stack(emit_children(cs, i, b, seed, k).0, st) == Some(st),
    decreases cs, cs.len() - i, 1nat,
{
    if 0 <= i < cs.len() {
        let head = emit_part(cs[i], seed, k);
        let rest = emit_children(cs, i + 1, b, seed, head.1);
        let sp = seq![Chunk::Sep(b)];
        lemma_run_stack_concat(sp + head.0, rest.0, st);
        lemma_run_stack_concat(sp, head.0, st);
        assert(run_stack(sp, st) == Some(st)) by {
            assert(sp.drop_first() =~= Seq::<Chunk>::empty());
            assert(run_stack(Seq::<Chunk>::empty(), st) == Some(st));
        }
        lemma_part_stream_neutral(cs[i], seed, k, st);
        lemma_children_stream_neutral(cs, i + 1, b, seed, head.1, st);
    } else {
        assert(emit_children(cs, i, b, seed, k).0.len() == 0);
    }
}

/// LAW: boundary delimiters balance. Running a tree's emission from an
/// empty stack succeeds and ends empty: every separator and every closing
/// delimiter carries the innermost still-open boundary token, and every
/// opened group is closed, in LIFO order matching the tree's nesting. In
/// consequence, the stream has as many group openings as closing
/// delimiters.
pub proof fn lemma_boundaries_balanced(p: MimePart, seed: u64, k: u64)
    ensures
        run_stack(emit_part(p, seed, k).0, Seq::empty()) == Some(Seq::<Seq<u8>>::empty()),
        count_opens(emit_part(p, seed, k).0) == count_closes(emit_part(p, seed, k).0),
{
    lemma_part_stream_neutral(p, seed, k, Seq::empty());
    lemma_run_stack_counts(emit_part(p, seed, k).0, Seq::empty());
}

/// LAW: a tree with no multipart node - a single leaf - emits no boundary
/// delimiters at all: its whole stream is one plain-bytes chunk.
pub proof fn lemma_leaf_emits_no_delimiters(p: MimePart, seed: u64, k: u64)
    requires
        !(p.contents is Multipart),
    ensures
        emit_part(p, seed, k).0.len() == 1,
        emit_part(p, seed, k).0[0] is Bytes,
        count_opens(emit_part(p, seed, k).0) == 0,
        count_closes(emit_part(p, seed, k).0) == 0,
{
    let s = emit_part(p, seed, k).0;
    assert(s.drop_first() =~= Seq::<Chunk>::empty());
    assert(count_opens(Seq::<Chunk>::empty()) == 0);
    assert(count_closes(Seq::<Chunk>::empty()) == 0);
}

/// LAW: a binary part's payload encoding. When its Content-Type is textual,
/// the part is emitted exactly as a text leaf: the classifier picks the
/// encoding, so base64 appears only when the classifier selects it. When
/// its type is not textual, the payload is always base64, whatever the
/// classifier would have picked.
pub proof fn lemma_binary_part_encoding(h: Seq<(Seq<u8>, HeaderType)>, d: Seq<u8>)
    ensures
        !spec_is_text_part(h) ==> binary_leaf_bytes(h, d) == headers_render(h, 0) + (cte_base64()
            + base64_of(d)),
        spec_is_text_part(h) ==> binary_leaf_bytes(h, d) == text_leaf_bytes(h, d),
        spec_is_text_part(h) && spec_encoding(d) is SevenBit ==> binary_leaf_bytes(h, d)
            == headers_render(h, 0) + (("Content-Transfer-Encoding: 7bit\r\n\r\n").spec_bytes() + (
        if !spec_is_attachment(h) {
            normalize_crlf(d, 0)
        } else {
            d
        })),
        spec_is_text_part(h) && spec_encoding(d) is QuotedPrintable ==> binary_leaf_bytes(h, d)
            == headers_render(h, 0) + ((
        "Content-Transfer-Encoding: quoted-printable\r\n\r\n").spec_bytes() + qp_of(
            d,
            !spec_is_attachment(h),
        )),
        spec_is_text_part(h) && spec_encoding(d) is Base64 ==> binary_leaf_bytes(h, d)
            == headers_render(h, 0) + (cte_base64() + base64_of(d)),
{
    reveal(binary_leaf_bytes);
    reveal(text_leaf_bytes);
    reveal(encoded_body);
}

} // verus!
