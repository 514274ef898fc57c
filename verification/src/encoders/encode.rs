//! The encoding classifier: given raw bytes, pick the cheapest legal
//! content-transfer-encoding. Bytes outside the 7-bit range (and NUL) force
//! quoted-printable, or base64 once they make up more than a quarter of the
//! content.

use vstd::prelude::*;

verus! {

/// The three content-transfer-encodings.
pub enum EncodingType {
    SevenBit,
    QuotedPrintable,
    Base64,
}

/// A byte that cannot travel in a 7-bit body.
pub open spec fn is_unsafe_byte(b: u8) -> bool {
    b >= 128 || b == 0
}

/// How many bytes of `s` cannot travel in a 7-bit body.
pub open spec fn count_unsafe(s: Seq<u8>) -> int
    decreases s.len(),
{
    if s.len() == 0 {
        0
    } else {
        (if is_unsafe_byte(s[0]) {
            1int
        } else {
            0int
        }) + count_unsafe(s.drop_first())
    }
}

/// The encoding the classifier picks: 7-bit when every byte is safe,
/// quoted-printable while unsafe bytes are at most a quarter of the whole,
/// base64 beyond that.
pub open spec fn spec_encoding(s: Seq<u8>) -> EncodingType {
    if count_unsafe(s) == 0 {
        EncodingType::SevenBit
    } else if 4 * count_unsafe(s) <= s.len() {
        EncodingType::QuotedPrintable
    } else {
        EncodingType::Base64
    }
}

pub proof fn lemma_count_unsafe_bounds(s: Seq<u8>)
    ensures
        0 <= count_unsafe(s) <= s.len(),
    decreases s.len(),
{
    if s.len() > 0 {
        lemma_count_unsafe_bounds(s.drop_first());
    }
}

/// Classify raw bytes into an encoding category. The context flags are part
/// of the classifier interface; this heuristic reads the bytes alone.
pub fn get_encoding_type(input: &[u8], _is_single_line: bool, _is_body: bool) -> (r: EncodingType)
    ensures
        r == spec_encoding(input@),
{
    let mut cnt: usize = 0;
    let mut i: usize = 0;
    proof {
        assert(input@.skip(0) =~= input@);
    }
    while i < input.len()
        invariant
            0 <= i <= input@.len(),
            cnt <= i,
            count_unsafe(input@) == cnt + count_unsafe(input@.skip(i as int)),
        decreases input@.len() - i,
    {
        proof {
            assert(input@.skip(i as int)[0] == input@[i as int]);
            assert(input@.skip(i as int).drop_first() =~= input@.skip(i as int + 1));
        }
        let b = input[i];
        if b >= 128 || b == 0 {
            cnt = cnt + 1;
        }
        i = i + 1;
    }
    proof {
        assert(input@.skip(i as int) =~= Seq::<u8>::empty());
        lemma_count_unsafe_bounds(input@);
    }
    if cnt == 0 {
        EncodingType::SevenBit
    } else if cnt <= input.len() / 4 {
        EncodingType::QuotedPrintable
    } else {
        EncodingType::Base64
    }
}

} // verus!
