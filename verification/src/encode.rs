//! Base64 encoding for the clipboard escape sequence: the terminal
//! receives the selected text base64-encoded, so it survives remote
//! sessions.
use vstd::prelude::*;

use crate::text::string_from_chars;
use vstd::string::StringSliceAdditionalSpecFns;

verus! {

/// The base64 alphabet character for a six-bit value.
pub open spec fn b64_char(d: int) -> char {
    if d < 26 {
        ((65 + d) as u32) as char
    } else if d < 52 {
        ((97 + d - 26) as u32) as char
    } else if d < 62 {
        ((48 + d - 52) as u32) as char
    } else if d == 62 {
        '+'
    } else {
        '/'
    }
}

/// Standard base64 with `=` padding: three bytes become four
/// characters; one or two trailing bytes are padded.
pub open spec fn b64_encode(bytes: Seq<u8>) -> Seq<char>
    decreases bytes.len(),
{
    if bytes.len() == 0 {
        Seq::empty()
    } else if bytes.len() == 1 {
        let b0 = bytes[0];
        seq![
            b64_char((b0 >> 2) as int),
            b64_char(((b0 & 3) << 4) as int),
            '=',
            '=',
        ]
    } else if bytes.len() == 2 {
        let b0 = bytes[0];
        let b1 = bytes[1];
        seq![
            b64_char((b0 >> 2) as int),
            b64_char((((b0 & 3) << 4) | (b1 >> 4)) as int),
            b64_char(((b1 & 15) << 2) as int),
            '=',
        ]
    } else {
        let b0 = bytes[0];
        let b1 = bytes[1];
        let b2 = bytes[2];
        seq![
            b64_char((b0 >> 2) as int),
            b64_char((((b0 & 3) << 4) | (b1 >> 4)) as int),
            b64_char((((b1 & 15) << 2) | (b2 >> 6)) as int),
            b64_char((b2 & 63) as int),
        ] + b64_encode(bytes.skip(3))
    }
}

fn b64_char_ex(d: u8) -> (r: char)
    requires
        d < 64,
    ensures
        r == b64_char(d as int),
{
    if d < 26 {
        (65 + d) as char
    } else if d < 52 {
        (97 + (d - 26)) as char
    } else if d < 62 {
        (48 + (d - 52)) as char
    } else if d == 62 {
        '+'
    } else {
        '/'
    }
}

/// Encodes bytes as standard base64 with padding.
pub fn base64_encode(bytes: &[u8]) -> (r: String)
    ensures
        r@ == b64_encode(bytes@),
{
    let n = bytes.len();
    let mut out: Vec<char> = Vec::new();
    let mut i: usize = 0;
    proof {
        assert(bytes@.skip(0) =~= bytes@);
    }
    while n - i >= 3
        invariant
            i <= n,
            n == bytes@.len(),
            i % 3 == 0,
            b64_encode(bytes@) == out@ + b64_encode(bytes@.skip(i as int)),
        decreases n - i,
    {
        let b0 = bytes[i];
        let b1 = bytes[i + 1];
        let b2 = bytes[i + 2];
        proof {
            let rest = bytes@.skip(i as int);
            assert(rest[0] == b0 && rest[1] == b1 && rest[2] == b2);
            assert(rest.skip(3) =~= bytes@.skip(i + 3));
            assert((b0 >> 2) < 64 && ((b0 & 3) << 4) < 64 && (b1 >> 4) < 64 && ((b0 & 3) << 4) | (
            b1 >> 4) < 64 && ((b1 & 15) << 2) < 64 && ((b1 & 15) << 2) | (b2 >> 6) < 64 && (b2
                & 63) < 64) by (bit_vector);
        }
        let ghost pre = out@;
        out.push(b64_char_ex(b0 >> 2));
        out.push(b64_char_ex(((b0 & 3) << 4) | (b1 >> 4)));
        out.push(b64_char_ex(((b1 & 15) << 2) | (b2 >> 6)));
        out.push(b64_char_ex(b2 & 63));
        i = i + 3;
        proof {
            let rest = bytes@.skip(i - 3);
            assert(out@ =~= pre + seq![
                b64_char((rest[0] >> 2) as int),
                b64_char((((rest[0] & 3) << 4) | (rest[1] >> 4)) as int),
                b64_char((((rest[1] & 15) << 2) | (rest[2] >> 6)) as int),
                b64_char((rest[2] & 63) as int),
            ]);
            assert(b64_encode(bytes@) =~= out@ + b64_encode(bytes@.skip(i as int)));
        }
    }
    let rem = n - i;
    if rem == 1 {
        let b0 = bytes[i];
        proof {
            let rest = bytes@.skip(i as int);
            assert(rest.len() == 1 && rest[0] == b0);
            assert((b0 >> 2) < 64 && ((b0 & 3) << 4) < 64) by (bit_vector);
        }
        let ghost pre = out@;
        out.push(b64_char_ex(b0 >> 2));
        out.push(b64_char_ex((b0 & 3) << 4));
        out.push('=');
        out.push('=');
        proof {
            assert(out@ =~= pre + b64_encode(bytes@.skip(i as int)));
            assert(out@ =~= b64_encode(bytes@));
        }
    } else if rem == 2 {
        let b0 = bytes[i];
        let b1 = bytes[i + 1];
        proof {
            let rest = bytes@.skip(i as int);
            assert(rest.len() == 2 && rest[0] == b0 && rest[1] == b1);
            assert((b0 >> 2) < 64 && (((b0 & 3) << 4) | (b1 >> 4)) < 64 && ((b1 & 15) << 2)
                < 64) by (bit_vector);
        }
        let ghost pre = out@;
        out.push(b64_char_ex(b0 >> 2));
        out.push(b64_char_ex(((b0 & 3) << 4) | (b1 >> 4)));
        out.push(b64_char_ex((b1 & 15) << 2));
        out.push('=');
        proof {
            assert(out@ =~= pre + b64_encode(bytes@.skip(i as int)));
            assert(out@ =~= b64_encode(bytes@));
        }
    } else {
        proof {
            assert(bytes@.skip(i as int) =~= Seq::<u8>::empty());
            assert(out@ =~= b64_encode(bytes@));
        }
    }
    string_from_chars(&out)
}

/// The base64 payload for the clipboard escape sequence: the text's
/// first hundred thousand bytes, encoded. The cap keeps the sequence
/// within what terminals accept.
pub fn clipboard_payload(text: &str) -> (r: String)
    ensures
        r@ == b64_encode(
            if text.spec_bytes().len() > 100000 {
                text.spec_bytes().take(100000)
            } else {
                text.spec_bytes()
            },
        ),
{
    let bytes = text.as_bytes();
    if bytes.len() > 100000 {
        let head = vstd::slice::slice_subrange(bytes, 0, 100000);
        proof {
            assert(head@ =~= text.spec_bytes().take(100000));
        }
        base64_encode(head)
    } else {
        base64_encode(bytes)
    }
}

} // verus!
