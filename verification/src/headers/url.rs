//! A URL header value, emitted in angle brackets.

use vstd::prelude::*;

verus! {

use vstd::string::StringSliceAdditionalSpecFns;
use crate::bytestr::str_vec;
use crate::headers::{Header, crlf, put_crlf};

/// A URL header value.
pub struct URL {
    pub url: Vec<u8>,
}

impl URL {
    /// Create a new URL header value.
    pub fn new(url: &str) -> (r: Self)
        ensures
            r.url@ == url.spec_bytes(),
    {
        URL { url: str_vec(url) }
    }
}

impl Header for URL {
    open spec fn rendered(&self, written: int) -> Seq<u8> {
        seq![60u8] + self.url@ + seq![62u8] + crlf()
    }

    fn write_header(&self, out: &mut Vec<u8>, written: usize) -> (r: usize) {
        out.push(60);
        out.extend_from_slice(self.url.as_slice());
        out.push(62);
        put_crlf(out);
        proof {
            assert(out@ =~= old(out)@ + self.rendered(written as int));
        }
        0
    }

    proof fn rendered_line_terminated(&self, written: int) {
    }
}

} // verus!
