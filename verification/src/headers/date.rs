//! The Date header value: a Unix timestamp. Formatting a chosen timestamp
//! is an outside concern; this value renders as an empty field, and the
//! message writer synthesizes a formatted Date line when none was set.

use vstd::prelude::*;

verus! {

use crate::headers::{Header, crlf, put_crlf};

/// A Date header value holding a Unix timestamp in seconds.
pub struct Date {
    pub date: i64,
}

impl Date {
    /// Create a new Date header value from a Unix timestamp.
    pub fn new(date: i64) -> (r: Self)
        ensures
            r.date == date,
    {
        Date { date }
    }
}

impl Header for Date {
    open spec fn rendered(&self, written: int) -> Seq<u8> {
        crlf()
    }

    fn write_header(&self, out: &mut Vec<u8>, written: usize) -> (r: usize) {
        put_crlf(out);
        0
    }

    proof fn rendered_line_terminated(&self, written: int) {
    }
}

} // verus!
