//! The base64 encoder: 3-byte groups become 4 alphabet characters, `=`
//! pads a short final group, and a CRLF breaks the output every 19 groups
//! (76 characters).

use vstd::prelude::*;

verus! {

use crate::headers::crlf;

/// The base64 alphabet character for a 6-bit value.
pub open spec fn b64_char(v: int) -> u8 {
    if v < 26 {
        (65 + v) as u8
    } else if v < 52 {
        (97 + v - 26) as u8
    } else if v < 62 {
        (48 + v - 52) as u8
    } else if v == 62 {
        43u8
    } else {
        47u8
    }
}

/// The encoding of the remaining input, `g` groups having been emitted
/// already on the current line run.
pub open spec fn b64_groups(s: Seq<u8>, g: int) -> Seq<u8>
    decreases s.len(),
{
    let brk: Seq<u8> = if g > 0 && g % 19 == 0 {
        crlf()
    } else {
        Seq::empty()
    };
    if s.len() == 0 {
        Seq::empty()
    } else if s.len() == 1 {
        let b0 = s[0] as int;
        brk + seq![b64_char(b0 / 4), b64_char((b0 % 4) * 16), 61u8, 61u8]
    } else if s.len() == 2 {
        let b0 = s[0] as int;
        let b1 = s[1] as int;
        brk + seq![b64_char(b0 / 4), b64_char((b0 % 4) * 16 + b1 / 16), b64_char((b1 % 16) * 4), 61u8]
    } else {
        let b0 = s[0] as int;
        let b1 = s[1] as int;
        let b2 = s[2] as int;
        brk + seq![
            b64_char(b0 / 4),
            b64_char((b0 % 4) * 16 + b1 / 16),
            b64_char((b1 % 16) * 4 + b2 / 64),
            b64_char(b2 % 64),
        ] + b64_groups(s.skip(3), g + 1)
    }
}

/// The full base64 encoding of `s`.
pub open spec fn base64_of(s: Seq<u8>) -> Seq<u8> {
    b64_groups(s, 0)
}

/// The alphabet character for a 6-bit value.
fn b64_char_of(v: u8) -> (r: u8)
    requires
        v < 64,
    ensures
        r == b64_char(v as int),
{
    if v < 26 {
        65 + v
    } else if v < 52 {
        97 + v - 26
    } else if v < 62 {
        48 + v - 52
    } else if v == 62 {
        43
    } else {
        47
    }
}

/// Append the base64 encoding of `input`.
pub fn base64_encode(input: &[u8], output: &mut Vec<u8>)
    ensures
        final(output)@ == old(output)@ + base64_of(input@),
{
    let mut i: usize = 0;
    let mut g: usize = 0;
    proof {
        assert(input@.skip(0) =~= input@);
    }
    while i < input.len()
        invariant
            0 <= i <= input@.len(),
            3 * g <= i,
            old(output)@ + base64_of(input@) == output@ + b64_groups(input@.skip(i as int), g as int),
        decreases input@.len() - i,
    {
        let ghost rest = input@.skip(i as int);
        let ghost out_pre = output@;
        if g > 0 && g % 19 == 0 {
            crate::headers::put_crlf(output);
        }
        let n = input.len() - i;
        proof {
            assert(rest.len() == n);
            assert forall|m: int| 0 <= m < rest.len() implies rest[m] == input@[i + m] by {}
        }
        if n >= 3 {
            let b0 = input[i];
            let b1 = input[i + 1];
            let b2 = input[i + 2];
            output.push(b64_char_of(b0 / 4));
            output.push(b64_char_of((b0 % 4) * 16 + b1 / 16));
            output.push(b64_char_of((b1 % 16) * 4 + b2 / 64));
            output.push(b64_char_of(b2 % 64));
            proof {
                assert(rest.skip(3) =~= input@.skip(i as int + 3));
                assert(output@ =~= out_pre + (if g > 0 && g % 19 == 0 {
                    crlf()
                } else {
                    Seq::<u8>::empty()
                }) + seq![
                    b64_char(b0 as int / 4),
                    b64_char((b0 as int % 4) * 16 + b1 as int / 16),
                    b64_char((b1 as int % 16) * 4 + b2 as int / 64),
                    b64_char(b2 as int % 64),
                ]);
            }
            i = i + 3;
            g = g + 1;
        } else if n == 2 {
            let b0 = input[i];
            let b1 = input[i + 1];
            output.push(b64_char_of(b0 / 4));
            output.push(b64_char_of((b0 % 4) * 16 + b1 / 16));
            output.push(b64_char_of((b1 % 16) * 4));
            output.push(61);
            proof {
                assert(input@.skip(i as int + 2) =~= Seq::<u8>::empty());
                assert(output@ =~= out_pre + b64_groups(rest, g as int));
            }
            i = i + 2;
        } else {
            let b0 = input[i];
            output.push(b64_char_of(b0 / 4));
            output.push(b64_char_of((b0 % 4) * 16));
            output.push(61);
            output.push(61);
            proof {
                assert(input@.skip(i as int + 1) =~= Seq::<u8>::empty());
                assert(output@ =~= out_pre + b64_groups(rest, g as int));
            }
            i = i + 1;
        }
    }
    proof {
        assert(input@.skip(i as int) =~= Seq::<u8>::empty());
    }
}

} // verus!
