//! A free-text header value, emitted as its UTF-8 bytes.

use vstd::prelude::*;

verus! {

use vstd::string::StringSliceAdditionalSpecFns;
use crate::bytestr::str_vec;
use crate::headers::{Header, crlf, put_crlf};

/// A free-text header value.
pub struct Text {
    pub text: Vec<u8>,
}

impl Text {
    /// Create a new free-text header value.
    pub fn new(text: &str) -> (r: Self)
        ensures
            r.text@ == text.spec_bytes(),
    {
        Text { text: str_vec(text) }
    }
}

impl Header for Text {
    open spec fn rendered(&self, written: int) -> Seq<u8> {
        self.text@ + crlf()
    }

    fn write_header(&self, out: &mut Vec<u8>, written: usize) -> (r: usize) {
        out.extend_from_slice(self.text.as_slice());
        put_crlf(out);
        proof {
            assert(out@ =~= old(out)@ + self.rendered(written as int));
        }
        0
    }

    proof fn rendered_line_terminated(&self, written: int) {
    }
}

} // verus!
