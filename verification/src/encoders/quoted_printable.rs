//! The quoted-printable encoder: printable ASCII travels as itself, every
//! other byte as `=` and two hex digits; in a body, CR and LF also pass
//! through unchanged.

use vstd::prelude::*;

verus! {

/// The hexadecimal digit (upper case) for a value below 16.
pub open spec fn hex_digit(v: int) -> u8 {
    if v < 10 {
        (48 + v) as u8
    } else {
        (55 + v) as u8
    }
}

/// Whether a byte travels unencoded.
pub open spec fn qp_literal(b: u8, is_body: bool) -> bool {
    ||| (is_body && (b == 13 || b == 10))
    ||| (33 <= b && b <= 126 && b != 61)
    ||| b == 32
    ||| b == 9
}

/// The encoding of one byte.
pub open spec fn qp_byte(b: u8, is_body: bool) -> Seq<u8> {
    if qp_literal(b, is_body) {
        seq![b]
    } else {
        seq![61u8, hex_digit(b as int / 16), hex_digit(b as int % 16)]
    }
}

/// The quoted-printable encoding of `s`.
pub open spec fn qp_of(s: Seq<u8>, is_body: bool) -> Seq<u8>
    decreases s.len(),
{
    if s.len() == 0 {
        Seq::empty()
    } else {
        qp_byte(s[0], is_body) + qp_of(s.drop_first(), is_body)
    }
}

/// The hexadecimal digit character for a value below 16.
fn hex_digit_of(v: u8) -> (r: u8)
    requires
        v < 16,
    ensures
        r == hex_digit(v as int),
{
    if v < 10 {
        48 + v
    } else {
        55 + v
    }
}

/// Append the quoted-printable encoding of `input`.
pub fn quoted_printable_encode(input: &[u8], output: &mut Vec<u8>, is_body: bool)
    ensures
        final(output)@ == old(output)@ + qp_of(input@, is_body),
{
    let mut i: usize = 0;
    proof {
        assert(input@.skip(0) =~= input@);
    }
    while i < input.len()
        invariant
            0 <= i <= input@.len(),
            old(output)@ + qp_of(input@, is_body) == output@ + qp_of(input@.skip(i as int), is_body),
        decreases input@.len() - i,
    {
        let ghost rest = input@.skip(i as int);
        let ghost out_pre = output@;
        proof {
            assert(rest[0] == input@[i as int]);
            assert(rest.drop_first() =~= input@.skip(i as int + 1));
        }
        let b = input[i];
        if (is_body && (b == 13 || b == 10)) || (33 <= b && b <= 126 && b != 61) || b == 32 || b
            == 9 {
            output.push(b);
            proof {
                assert(output@ =~= out_pre + qp_byte(b, is_body));
            }
        } else {
            output.push(61);
            output.push(hex_digit_of(b / 16));
            output.push(hex_digit_of(b % 16));
            proof {
                assert(output@ =~= out_pre + qp_byte(b, is_body));
            }
        }
        i = i + 1;
    }
    proof {
        assert(input@.skip(i as int) =~= Seq::<u8>::empty());
    }
}

} // verus!
