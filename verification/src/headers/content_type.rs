//! The Content-Type header value: a type name plus attributes, the
//! attributes kept sorted by name so emission is deterministic.

use vstd::prelude::*;

verus! {

use vstd::string::StringSliceAdditionalSpecFns;
use crate::bytestr::{lex_lt, bytes_eq, bytes_lt, str_vec, lemma_lex_lt_total, lemma_lex_lt_trans};
use crate::namemap::{
    sorted_names, has_name, get_value, insert_entry, lemma_first_match, lemma_insert_entry_at,
};
use crate::headers::{Header, crlf, put_crlf};

/// A map from attribute names to values, iterated in name order.
pub struct AttrMap {
    entries: Vec<(Vec<u8>, Vec<u8>)>,
}

impl View for AttrMap {
    type V = Seq<(Seq<u8>, Seq<u8>)>;

    closed spec fn view(&self) -> Seq<(Seq<u8>, Seq<u8>)> {
        Seq::new(self.entries@.len(), |i: int| (self.entries@[i].0@, self.entries@[i].1@))
    }
}

impl AttrMap {
    pub fn new() -> (r: AttrMap)
        ensures
            r@ == Seq::<(Seq<u8>, Seq<u8>)>::empty(),
    {
        let r = AttrMap { entries: Vec::new() };
        proof {
            assert(r@ =~= Seq::<(Seq<u8>, Seq<u8>)>::empty());
        }
        r
    }

    pub fn len(&self) -> (r: usize)
        ensures
            r == self@.len(),
    {
        self.entries.len()
    }

    pub fn name_at(&self, i: usize) -> (r: &Vec<u8>)
        requires
            i < self@.len(),
        ensures
            r@ == self@[i as int].0,
    {
        &self.entries[i].0
    }

    pub fn value_at(&self, i: usize) -> (r: &Vec<u8>)
        requires
            i < self@.len(),
        ensures
            r@ == self@[i as int].1,
    {
        &self.entries[i].1
    }

    /// The value of the attribute named `k`, if any.
    pub fn get(&self, k: &[u8]) -> (r: Option<&Vec<u8>>)
        ensures
            (r is Some) == has_name(self@, k@),
            r matches Some(v) ==> v@ == get_value(self@, k@),
    {
        let mut i: usize = 0;
        while i < self.entries.len()
            invariant
                0 <= i <= self@.len(),
                self@.len() == self.entries@.len(),
                forall|j: int| 0 <= j < i ==> (#[trigger] self@[j]).0 != k@,
            decreases self@.len() - i,
        {
            proof {
                assert(self@[i as int] == (self.entries@[i as int].0@, self.entries@[i as int].1@));
            }
            if bytes_eq(self.entries[i].0.as_slice(), k) {
                proof {
                    lemma_first_match(self@, k@, i as int);
                }
                return Some(&self.entries[i].1);
            }
            i = i + 1;
        }
        proof {
            assert(!has_name(self@, k@));
        }
        None
    }

    /// Insert `(k, v)` at its place in name order, replacing the attribute
    /// named `k` if one exists.
    pub fn insert(&mut self, k: &str, v: Vec<u8>)
        requires
            sorted_names(old(self)@),
        ensures
            final(self)@ == insert_entry(old(self)@, k.spec_bytes(), v@),
            sorted_names(final(self)@),
    {
        let ghost kb = k.spec_bytes();
        let ghost s0 = self@;
        let ghost e0 = self.entries@;
        let ghost vb = v@;
        let mut i: usize = 0;
        loop
            invariant
                0 <= i <= self@.len(),
                self@.len() == self.entries@.len(),
                self@ == s0,
                self.entries@ == e0,
                v@ == vb,
                kb == k.spec_bytes(),
                forall|j: int| 0 <= j < i ==> lex_lt((#[trigger] self@[j]).0, kb),
            ensures
                0 <= i <= self@.len(),
                self@ == s0,
                self.entries@ == e0,
                v@ == vb,
                forall|j: int| 0 <= j < i ==> lex_lt((#[trigger] self@[j]).0, kb),
                i < self@.len() ==> !lex_lt(self@[i as int].0, kb),
            decreases self@.len() - i,
        {
            if i >= self.entries.len() {
                break;
            }
            proof {
                assert(self@[i as int] == (self.entries@[i as int].0@, self.entries@[i as int].1@));
            }
            if !bytes_lt(self.entries[i].0.as_slice(), k.as_bytes()) {
                break;
            }
            i = i + 1;
        }
        let ghost ii = i as int;
        proof {
            if i < self.entries.len() {
                assert(s0[ii] == (e0[ii].0@, e0[ii].1@));
            }
        }
        if i < self.entries.len() && bytes_eq(self.entries[i].0.as_slice(), k.as_bytes()) {
            proof {
                lemma_insert_entry_at(s0, kb, vb, ii);
            }
            self.entries.set(i, (str_vec(k), v));
            proof {
                assert forall|m: int| 0 <= m < self@.len() implies self@[m] == s0.update(
                    ii,
                    (kb, vb),
                )[m] by {
                    assert(self@[m] == (self.entries@[m].0@, self.entries@[m].1@));
                    if m != ii {
                        assert(self.entries@[m] == e0[m]);
                        assert(s0[m] == (e0[m].0@, e0[m].1@));
                    }
                }
                assert(self@ =~= s0.update(ii, (kb, vb)));
                assert forall|m: int, n: int| 0 <= m < n < self@.len() implies lex_lt(
                    (#[trigger] self@[m]).0,
                    (#[trigger] self@[n]).0,
                ) by {
                    assert(self@[m].0 == s0[m].0);
                    assert(self@[n].0 == s0[n].0);
                }
            }
        } else {
            proof {
                if i < self.entries.len() {
                    lemma_lex_lt_total(s0[ii].0, kb);
                }
                lemma_insert_entry_at(s0, kb, vb, ii);
            }
            self.entries.insert(i, (str_vec(k), v));
            proof {
                assert forall|m: int| 0 <= m < self@.len() implies self@[m] == (s0.take(ii).push(
                    (kb, vb),
                ) + s0.skip(ii))[m] by {
                    assert(self@[m] == (self.entries@[m].0@, self.entries@[m].1@));
                    if m < ii {
                        assert(self.entries@[m] == e0[m]);
                        assert(s0[m] == (e0[m].0@, e0[m].1@));
                    } else if m > ii {
                        assert(self.entries@[m] == e0[m - 1]);
                        assert(s0[m - 1] == (e0[m - 1].0@, e0[m - 1].1@));
                    }
                }
                assert(self@ =~= s0.take(ii).push((kb, vb)) + s0.skip(ii));
                assert forall|m: int, n: int| 0 <= m < n < self@.len() implies lex_lt(
                    (#[trigger] self@[m]).0,
                    (#[trigger] self@[n]).0,
                ) by {
                    if m == ii && n > ii {
                        if ii < s0.len() && n - 1 > ii {
                            lemma_lex_lt_trans(kb, s0[ii].0, s0[n - 1].0);
                        }
                    }
                }
            }
        }
    }
}

/// The rendering of attribute entries from position `i` on:
/// `; name="value"` for each.
pub open spec fn attrs_render(s: Seq<(Seq<u8>, Seq<u8>)>, i: int) -> Seq<u8>
    decreases s.len() - i,
{
    if 0 <= i < s.len() {
        seq![59u8, 32u8] + s[i].0 + seq![61u8, 34u8] + s[i].1 + seq![34u8] + attrs_render(s, i + 1)
    } else {
        Seq::empty()
    }
}

/// The full rendering of a Content-Type value with the given attributes.
pub open spec fn ct_render(c_type: Seq<u8>, attrs: Seq<(Seq<u8>, Seq<u8>)>) -> Seq<u8> {
    c_type + attrs_render(attrs, 0) + crlf()
}

/// Whether a type name has a textual main type.
pub open spec fn spec_is_text(c_type: Seq<u8>) -> bool {
    c_type.len() >= 5 && c_type.take(5) == ("text/").spec_bytes()
}

/// A Content-Type (or Content-Disposition) header value.
pub struct ContentType {
    pub c_type: Vec<u8>,
    pub attributes: AttrMap,
}

impl ContentType {
    /// Create a new value of the given type, with no attributes.
    pub fn new(c_type: &str) -> (r: Self)
        ensures
            r.c_type@ == c_type.spec_bytes(),
            r.attributes@ == Seq::<(Seq<u8>, Seq<u8>)>::empty(),
            sorted_names(r.attributes@),
    {
        ContentType { c_type: str_vec(c_type), attributes: AttrMap::new() }
    }

    /// Add an attribute, replacing one of the same name.
    pub fn attribute(self, k: &str, v: &str) -> (r: Self)
        requires
            sorted_names(self.attributes@),
        ensures
            r.c_type@ == self.c_type@,
            r.attributes@ == insert_entry(self.attributes@, k.spec_bytes(), v.spec_bytes()),
            sorted_names(r.attributes@),
    {
        let mut s = self;
        s.attributes.insert(k, str_vec(v));
        s
    }

    /// Whether this value names the `attachment` disposition.
    pub fn is_attachment(&self) -> (r: bool)
        ensures
            r == (self.c_type@ == ("attachment").spec_bytes()),
    {
        bytes_eq(self.c_type.as_slice(), "attachment".as_bytes())
    }

    /// Whether this value names a textual type.
    pub fn is_text(&self) -> (r: bool)
        ensures
            r == spec_is_text(self.c_type@),
    {
        if self.c_type.len() < 5 {
            return false;
        }
        let prefix = vstd::slice::slice_subrange(self.c_type.as_slice(), 0, 5);
        let r = bytes_eq(prefix, "text/".as_bytes());
        proof {
            assert(self.c_type@.subrange(0, 5) =~= self.c_type@.take(5));
        }
        r
    }
}

impl Header for ContentType {
    open spec fn rendered(&self, written: int) -> Seq<u8> {
        ct_render(self.c_type@, self.attributes@)
    }

    fn write_header(&self, out: &mut Vec<u8>, written: usize) -> (r: usize) {
        let ghost out0 = out@;
        out.extend_from_slice(self.c_type.as_slice());
        let mut i: usize = 0;
        let n = self.attributes.len();
        while i < n
            invariant
                0 <= i <= self.attributes@.len(),
                n == self.attributes@.len(),
                out0 + self.c_type@ + attrs_render(self.attributes@, 0) == out@ + attrs_render(
                    self.attributes@,
                    i as int,
                ),
            decreases n - i,
        {
            let ghost out_pre = out@;
            out.push(59);
            out.push(32);
            out.extend_from_slice(self.attributes.name_at(i).as_slice());
            out.push(61);
            out.push(34);
            out.extend_from_slice(self.attributes.value_at(i).as_slice());
            out.push(34);
            proof {
                assert(out@ =~= out_pre + (seq![59u8, 32u8] + self.attributes@[i as int].0 + seq![
                    61u8,
                    34u8,
                ] + self.attributes@[i as int].1 + seq![34u8]));
            }
            i = i + 1;
        }
        put_crlf(out);
        proof {
            assert(out@ =~= out0 + self.rendered(written as int));
        }
        0
    }

    proof fn rendered_line_terminated(&self, written: int) {
    }
}

} // verus!
