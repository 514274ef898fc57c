//! Header values and the header map.
//!
//! Every header value kind satisfies one contract, `Header`: it appends the
//! bytes that follow `Name: ` on the wire, always ends the logical header
//! line with CRLF, and reports how many bytes trail on the last line.

use vstd::prelude::*;

pub mod address;
pub mod content_type;
pub mod date;
pub mod message_id;
pub mod raw;
pub mod text;
pub mod url;

verus! {

use vstd::string::StringSliceAdditionalSpecFns;
use crate::bytestr::{lex_lt, bytes_eq, bytes_lt, lemma_lex_lt_total, lemma_lex_lt_trans};
use crate::namemap::{
    sorted_names, sorted_names_dup, has_name, get_value, insert_entry, insert_entry_dup,
    remove_entry, lemma_first_match, lemma_insert_entry_at, lemma_insert_entry_dup_at,
    lemma_remove_entry_at, lemma_remove_entry_absent,
};
use crate::headers::address::Address;
use crate::headers::content_type::ContentType;
use crate::headers::date::Date;
use crate::headers::message_id::MessageId;
use crate::headers::raw::Raw;
use crate::headers::text::Text;
use crate::headers::url::URL;

/// The line terminator of the wire format.
pub open spec fn crlf() -> Seq<u8> {
    seq![13u8, 10u8]
}

/// Append CRLF.
pub fn put_crlf(out: &mut Vec<u8>)
    ensures
        final(out)@ == old(out)@ + crlf(),
{
    out.push(13);
    out.push(10);
    proof {
        assert(out@ =~= old(out)@ + crlf());
    }
}

/// The column reached after `Name: ` has been written, as the writer
/// computes it (saturating at the machine limit).
pub open spec fn col_after(name: Seq<u8>) -> int {
    if name.len() + 2 <= usize::MAX {
        name.len() as int + 2
    } else {
        usize::MAX as int
    }
}

/// The contract every header value satisfies: render yourself as the bytes
/// that follow `Name: `, given how many bytes stand on the current line
/// already, ending the logical line with CRLF, and return how many bytes
/// trail on the last emitted line.
pub trait Header: Sized {
    /// The bytes this value renders as.
    spec fn rendered(&self, written: int) -> Seq<u8>;

    /// Append the rendered bytes.
    fn write_header(&self, out: &mut Vec<u8>, written: usize) -> (r: usize)
        ensures
            final(out)@ == old(out)@ + self.rendered(written as int),
            r == 0,
    ;

    /// Rendering is self-delimiting: it always ends with CRLF.
    proof fn rendered_line_terminated(&self, written: int)
        requires
            written >= 1,
        ensures
            self.rendered(written).len() >= 2,
            self.rendered(written)[self.rendered(written).len() - 2] == 13u8,
            self.rendered(written)[self.rendered(written).len() - 1] == 10u8,
    ;
}

/// The closed set of header value kinds.
pub enum HeaderType {
    Address(Address),
    ContentType(ContentType),
    Date(Date),
    MessageId(MessageId),
    Raw(Raw),
    Text(Text),
    Url(URL),
}

impl HeaderType {
    /// The Content-Type value inside, if this is one.
    pub fn as_content_type(&self) -> (r: Option<&ContentType>)
        ensures
            match r {
                Some(ct) => self matches HeaderType::ContentType(c) && *ct == c,
                None => !(self matches HeaderType::ContentType(_)),
            },
    {
        match self {
            HeaderType::ContentType(ct) => Some(ct),
            _ => None,
        }
    }
}

impl Header for HeaderType {
    open spec fn rendered(&self, written: int) -> Seq<u8> {
        match self {
            HeaderType::Address(v) => v.rendered(written),
            HeaderType::ContentType(v) => v.rendered(written),
            HeaderType::Date(v) => v.rendered(written),
            HeaderType::MessageId(v) => v.rendered(written),
            HeaderType::Raw(v) => v.rendered(written),
            HeaderType::Text(v) => v.rendered(written),
            HeaderType::Url(v) => v.rendered(written),
        }
    }

    fn write_header(&self, out: &mut Vec<u8>, written: usize) -> (r: usize) {
        match self {
            HeaderType::Address(v) => v.write_header(out, written),
            HeaderType::ContentType(v) => v.write_header(out, written),
            HeaderType::Date(v) => v.write_header(out, written),
            HeaderType::MessageId(v) => v.write_header(out, written),
            HeaderType::Raw(v) => v.write_header(out, written),
            HeaderType::Text(v) => v.write_header(out, written),
            HeaderType::Url(v) => v.write_header(out, written),
        }
    }

    proof fn rendered_line_terminated(&self, written: int) {
        match self {
            HeaderType::Address(v) => v.rendered_line_terminated(written),
            HeaderType::ContentType(v) => v.rendered_line_terminated(written),
            HeaderType::Date(v) => v.rendered_line_terminated(written),
            HeaderType::MessageId(v) => v.rendered_line_terminated(written),
            HeaderType::Raw(v) => v.rendered_line_terminated(written),
            HeaderType::Text(v) => v.rendered_line_terminated(written),
            HeaderType::Url(v) => v.rendered_line_terminated(written),
        }
    }
}

/// One full header line: `name: value-bytes`, CRLF included by the value.
pub open spec fn header_line(name: Seq<u8>, v: HeaderType) -> Seq<u8> {
    name + seq![58u8, 32u8] + v.rendered(col_after(name))
}

/// All header lines of the entries of `s` from position `i` on, in order.
pub open spec fn headers_render(s: Seq<(Seq<u8>, HeaderType)>, i: int) -> Seq<u8>
    decreases s.len() - i,
{
    if 0 <= i < s.len() {
        header_line(s[i].0, s[i].1) + headers_render(s, i + 1)
    } else {
        Seq::empty()
    }
}

/// Append every header line of `m`, in map order.
pub fn write_headers(m: &HeaderMap, out: &mut Vec<u8>)
    ensures
        final(out)@ == old(out)@ + headers_render(m@, 0),
{
    let n = m.len();
    let mut i: usize = 0;
    while i < n
        invariant
            0 <= i <= m@.len(),
            n == m@.len(),
            old(out)@ + headers_render(m@, 0) == out@ + headers_render(m@, i as int),
        decreases n - i,
    {
        let ghost out_pre = out@;
        let name = m.name_at(i);
        out.extend_from_slice(name.as_slice());
        out.push(58);
        out.push(32);
        let w = name.len().saturating_add(2);
        proof {
            assert(w as int == col_after(m@[i as int].0));
        }
        m.value_at(i).write_header(out, w);
        proof {
            assert(out@ =~= out_pre + header_line(m@[i as int].0, m@[i as int].1));
        }
        i = i + 1;
    }
}

/// A map from header names to values, iterated in map order.
pub struct HeaderMap {
    entries: Vec<(Vec<u8>, HeaderType)>,
}

impl View for HeaderMap {
    type V = Seq<(Seq<u8>, HeaderType)>;

    closed spec fn view(&self) -> Seq<(Seq<u8>, HeaderType)> {
        Seq::new(self.entries@.len(), |i: int| (self.entries@[i].0@, self.entries@[i].1))
    }
}

impl HeaderMap {
    pub fn new() -> (r: HeaderMap)
        ensures
            r@ == Seq::<(Seq<u8>, HeaderType)>::empty(),
    {
        let r = HeaderMap { entries: Vec::new() };
        proof {
            assert(r@ =~= Seq::<(Seq<u8>, HeaderType)>::empty());
        }
        r
    }

    pub fn len(&self) -> (r: usize)
        ensures
            r == self@.len(),
    {
        self.entries.len()
    }

    pub fn name_at(&self, i: usize) -> (r: &Vec<u8>)
        requires
            i < self@.len(),
        ensures
            r@ == self@[i as int].0,
    {
        &self.entries[i].0
    }

    pub fn value_at(&self, i: usize) -> (r: &HeaderType)
        requires
            i < self@.len(),
        ensures
            *r == self@[i as int].1,
    {
        &self.entries[i].1
    }

    /// The value under name `k`, if any.
    pub fn get(&self, k: &[u8]) -> (r: Option<&HeaderType>)
        ensures
            (r is Some) == has_name(self@, k@),
            r matches Some(v) ==> *v == get_value(self@, k@),
    {
        let mut i: usize = 0;
        while i < self.entries.len()
            invariant
                0 <= i <= self@.len(),
                self@.len() == self.entries@.len(),
                forall|j: int| 0 <= j < i ==> (#[trigger] self@[j]).0 != k@,
            decreases self@.len() - i,
        {
            proof {
                assert(self@[i as int] == (self.entries@[i as int].0@, self.entries@[i as int].1));
            }
            if bytes_eq(self.entries[i].0.as_slice(), k) {
                proof {
                    lemma_first_match(self@, k@, i as int);
                }
                return Some(&self.entries[i].1);
            }
            i = i + 1;
        }
        proof {
            assert(!has_name(self@, k@));
        }
        None
    }

    /// The position of the first entry whose name is not below `k`.
    fn lower_bound(&self, k: &[u8]) -> (r: usize)
        ensures
            0 <= r <= self@.len(),
            forall|j: int| 0 <= j < r ==> lex_lt((#[trigger] self@[j]).0, k@),
            r < self@.len() ==> !lex_lt(self@[r as int].0, k@),
    {
        let mut i: usize = 0;
        while i < self.entries.len()
            invariant
                0 <= i <= self@.len(),
                self@.len() == self.entries@.len(),
                forall|j: int| 0 <= j < i ==> lex_lt((#[trigger] self@[j]).0, k@),
            decreases self@.len() - i,
        {
            proof {
                assert(self@[i as int] == (self.entries@[i as int].0@, self.entries@[i as int].1));
            }
            if !bytes_lt(self.entries[i].0.as_slice(), k) {
                return i;
            }
            i = i + 1;
        }
        i
    }

    /// Insert `(k, v)` at its place in name order, replacing the entry
    /// named `k` if one exists.
    pub fn set(&mut self, k: &str, v: HeaderType)
        requires
            sorted_names(old(self)@),
        ensures
            final(self)@ == insert_entry(old(self)@, k.spec_bytes(), v),
            sorted_names(final(self)@),
    {
        let ghost kb = k.spec_bytes();
        let ghost s0 = self@;
        let ghost e0 = self.entries@;
        let i = self.lower_bound(k.as_bytes());
        let ghost ii = i as int;
        proof {
            if i < self.entries.len() {
                assert(s0[ii] == (e0[ii].0@, e0[ii].1));
            }
        }
        if i < self.entries.len() && bytes_eq(self.entries[i].0.as_slice(), k.as_bytes()) {
            proof {
                lemma_insert_entry_at(s0, kb, v, ii);
            }
            self.entries.set(i, (crate::bytestr::str_vec(k), v));
            proof {
                assert forall|m: int| 0 <= m < self@.len() implies self@[m] == s0.update(
                    ii,
                    (kb, v),
                )[m] by {
                    assert(self@[m] == (self.entries@[m].0@, self.entries@[m].1));
                    if m != ii {
                        assert(self.entries@[m] == e0[m]);
                        assert(s0[m] == (e0[m].0@, e0[m].1));
                    }
                }
                assert(self@ =~= s0.update(ii, (kb, v)));
                assert forall|m: int, n: int| 0 <= m < n < self@.len() implies lex_lt(
                    (#[trigger] self@[m]).0,
                    (#[trigger] self@[n]).0,
                ) by {
                    assert(self@[m].0 == s0[m].0);
                    assert(self@[n].0 == s0[n].0);
                }
            }
        } else {
            proof {
                if i < self.entries.len() {
                    lemma_lex_lt_total(s0[ii].0, kb);
                }
                lemma_insert_entry_at(s0, kb, v, ii);
            }
            self.entries.insert(i, (crate::bytestr::str_vec(k), v));
            proof {
                assert forall|m: int| 0 <= m < self@.len() implies self@[m] == (s0.take(ii).push(
                    (kb, v),
                ) + s0.skip(ii))[m] by {
                    assert(self@[m] == (self.entries@[m].0@, self.entries@[m].1));
                    if m < ii {
                        assert(self.entries@[m] == e0[m]);
                        assert(s0[m] == (e0[m].0@, e0[m].1));
                    } else if m > ii {
                        assert(self.entries@[m] == e0[m - 1]);
                        assert(s0[m - 1] == (e0[m - 1].0@, e0[m - 1].1));
                    }
                }
                assert(self@ =~= s0.take(ii).push((kb, v)) + s0.skip(ii));
                assert forall|m: int, n: int| 0 <= m < n < self@.len() implies lex_lt(
                    (#[trigger] self@[m]).0,
                    (#[trigger] self@[n]).0,
                ) by {
                    if m == ii && n > ii {
                        if ii < s0.len() && n - 1 > ii {
                            lemma_lex_lt_trans(kb, s0[ii].0, s0[n - 1].0);
                        }
                    }
                }
            }
        }
    }

    /// Insert `(k, v)` after every entry whose name is not greater than `k`,
    /// keeping entries of equal name in insertion order.
    pub fn add(&mut self, k: &str, v: HeaderType)
        requires
            sorted_names_dup(old(self)@),
        ensures
            final(self)@ == insert_entry_dup(old(self)@, k.spec_bytes(), v),
            sorted_names_dup(final(self)@),
    {
        let ghost kb = k.spec_bytes();
        let ghost s0 = self@;
        let ghost e0 = self.entries@;
        let mut i: usize = 0;
        loop
            invariant
                0 <= i <= self@.len(),
                self@.len() == self.entries@.len(),
                self@ == s0,
                self.entries@ == e0,
                kb == k.spec_bytes(),
                forall|j: int| 0 <= j < i ==> !lex_lt(kb, (#[trigger] self@[j]).0),
            ensures
                0 <= i <= self@.len(),
                self@ == s0,
                self.entries@ == e0,
                forall|j: int| 0 <= j < i ==> !lex_lt(kb, (#[trigger] self@[j]).0),
                i < self@.len() ==> lex_lt(kb, self@[i as int].0),
            decreases self@.len() - i,
        {
            if i >= self.entries.len() {
                break;
            }
            proof {
                assert(self@[i as int] == (self.entries@[i as int].0@, self.entries@[i as int].1));
            }
            if bytes_lt(k.as_bytes(), self.entries[i].0.as_slice()) {
                break;
            }
            i = i + 1;
        }
        let ghost ii = i as int;
        proof {
            lemma_insert_entry_dup_at(s0, kb, v, ii);
        }
        self.entries.insert(i, (crate::bytestr::str_vec(k), v));
        proof {
            assert forall|m: int| 0 <= m < self@.len() implies self@[m] == (s0.take(ii).push(
                (kb, v),
            ) + s0.skip(ii))[m] by {
                assert(self@[m] == (self.entries@[m].0@, self.entries@[m].1));
                if m < ii {
                    assert(self.entries@[m] == e0[m]);
                    assert(s0[m] == (e0[m].0@, e0[m].1));
                } else if m > ii {
                    assert(self.entries@[m] == e0[m - 1]);
                    assert(s0[m - 1] == (e0[m - 1].0@, e0[m - 1].1));
                }
            }
            assert(self@ =~= s0.take(ii).push((kb, v)) + s0.skip(ii));
            assert forall|m: int, n: int| 0 <= m < n < self@.len() implies !lex_lt(
                (#[trigger] self@[n]).0,
                (#[trigger] self@[m]).0,
            ) by {
                if m < ii {
                    assert(self@[m] == s0[m]);
                } else if m > ii {
                    assert(self@[m] == s0[m - 1]);
                }
                if n < ii {
                    assert(self@[n] == s0[n]);
                } else if n > ii {
                    assert(self@[n] == s0[n - 1]);
                }
                if m == ii && n > ii {
                    if lex_lt(s0[n - 1].0, kb) {
                        lemma_lex_lt_trans(s0[n - 1].0, kb, s0[ii].0);
                        lemma_lex_lt_total(s0[n - 1].0, s0[ii].0);
                    }
                }
            }
        }
    }

    /// Remove and return the entry named `k`, if any.
    pub fn remove(&mut self, k: &[u8]) -> (r: Option<HeaderType>)
        ensures
            final(self)@ == remove_entry(old(self)@, k@),
            (r is Some) == has_name(old(self)@, k@),
            r matches Some(v) ==> v == get_value(old(self)@, k@),
            sorted_names(old(self)@) ==> sorted_names(final(self)@),
    {
        let ghost s0 = self@;
        let mut i: usize = 0;
        while i < self.entries.len()
            invariant
                0 <= i <= self@.len(),
                self@.len() == self.entries@.len(),
                self@ == s0,
                s0 == old(self)@,
                forall|j: int| 0 <= j < i ==> (#[trigger] self@[j]).0 != k@,
            decreases self@.len() - i,
        {
            proof {
                assert(self@[i as int] == (self.entries@[i as int].0@, self.entries@[i as int].1));
            }
            if bytes_eq(self.entries[i].0.as_slice(), k) {
                proof {
                    lemma_first_match(s0, k@, i as int);
                    lemma_remove_entry_at(s0, k@, i as int);
                }
                let ghost e0 = self.entries@;
                let e = self.entries.remove(i);
                proof {
                    let ii = i as int;
                    assert forall|m: int| 0 <= m < self@.len() implies self@[m] == (s0.take(ii)
                        + s0.skip(ii + 1))[m] by {
                        assert(self@[m] == (self.entries@[m].0@, self.entries@[m].1));
                        if m < ii {
                            assert(self.entries@[m] == e0[m]);
                            assert(s0[m] == (e0[m].0@, e0[m].1));
                        } else {
                            assert(self.entries@[m] == e0[m + 1]);
                            assert(s0[m + 1] == (e0[m + 1].0@, e0[m + 1].1));
                        }
                    }
                    assert(self@ =~= s0.take(i as int) + s0.skip(i as int + 1));
                    if sorted_names(s0) {
                        assert forall|m: int, n: int| 0 <= m < n < self@.len() implies lex_lt(
                            (#[trigger] self@[m]).0,
                            (#[trigger] self@[n]).0,
                        ) by {
                            let ii = i as int;
                            if m < ii && n >= ii {
                                assert(self@[n] == s0[n + 1]);
                            } else if m >= ii {
                                assert(self@[m] == s0[m + 1]);
                                assert(self@[n] == s0[n + 1]);
                            }
                        }
                    }
                }
                return Some(e.1);
            }
            i = i + 1;
        }
        proof {
            assert(!has_name(s0, k@));
            lemma_remove_entry_absent(s0, k@);
        }
        None
    }
}

} // verus!
