//! An opaque header value, emitted byte for byte.

use vstd::prelude::*;

verus! {

use vstd::string::StringSliceAdditionalSpecFns;
use crate::bytestr::str_vec;
use crate::headers::{Header, crlf, put_crlf};

/// An opaque header value.
pub struct Raw {
    pub raw: Vec<u8>,
}

impl Raw {
    /// Create a new opaque header value.
    pub fn new(raw: &str) -> (r: Self)
        ensures
            r.raw@ == raw.spec_bytes(),
    {
        Raw { raw: str_vec(raw) }
    }
}

impl Header for Raw {
    open spec fn rendered(&self, written: int) -> Seq<u8> {
        self.raw@ + crlf()
    }

    fn write_header(&self, out: &mut Vec<u8>, written: usize) -> (r: usize) {
        out.extend_from_slice(self.raw.as_slice());
        put_crlf(out);
        proof {
            assert(out@ =~= old(out)@ + self.rendered(written as int));
        }
        0
    }

    proof fn rendered_line_terminated(&self, written: int) {
    }
}

} // verus!
