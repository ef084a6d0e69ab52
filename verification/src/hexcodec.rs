//! Hex encoding and decoding of byte strings, as used on the RPC surface:
//! block headers, extrinsics, storage keys and values all travel as
//! `0x`-prefixed lowercase hex. Encoding is done by the `array-bytes`
//! crate, with a contract stating the exact character sequence it
//! produces; decoding is the library's own, proved to accept exactly the
//! hex strings and to return the denoted bytes.

use vstd::prelude::*;
use vstd::std_specs::iter::IteratorSpec;

verus! {

/// The character for a single hex digit value (lowercase).
pub open spec fn hex_digit_char(d: int) -> char {
    if d == 0 {
        '0'
    } else if d == 1 {
        '1'
    } else if d == 2 {
        '2'
    } else if d == 3 {
        '3'
    } else if d == 4 {
        '4'
    } else if d == 5 {
        '5'
    } else if d == 6 {
        '6'
    } else if d == 7 {
        '7'
    } else if d == 8 {
        '8'
    } else if d == 9 {
        '9'
    } else if d == 10 {
        'a'
    } else if d == 11 {
        'b'
    } else if d == 12 {
        'c'
    } else if d == 13 {
        'd'
    } else if d == 14 {
        'e'
    } else {
        'f'
    }
}

/// The two hex digits of one byte.
pub open spec fn hex_of_byte(b: u8) -> Seq<char> {
    seq![hex_digit_char(b as int / 16), hex_digit_char(b as int % 16)]
}

/// The hex digits of a byte string, two per byte, without a prefix.
pub open spec fn hex_digits_of(b: Seq<u8>) -> Seq<char>
    decreases b.len(),
{
    if b.len() == 0 {
        Seq::<char>::empty()
    } else {
        hex_of_byte(b[0]) + hex_digits_of(b.drop_first())
    }
}

/// The full `0x`-prefixed lowercase hex rendering of a byte string.
pub open spec fn hex_str_of(b: Seq<u8>) -> Seq<char> {
    seq!['0', 'x'] + hex_digits_of(b)
}

/// Whether a character is a hex digit, upper or lower case.
pub open spec fn is_hex_digit(c: char) -> bool {
    ('0' <= c && c <= '9') || ('a' <= c && c <= 'f') || ('A' <= c && c <= 'F')
}

/// The value of one hex digit character.
pub open spec fn hex_digit_val(c: char) -> int {
    if '0' <= c && c <= '9' {
        c as int - '0' as int
    } else if 'a' <= c && c <= 'f' {
        c as int - 'a' as int + 10
    } else {
        c as int - 'A' as int + 10
    }
}

/// A hex string body: even length, hex digits only.
pub open spec fn is_hex_body(s: Seq<char>) -> bool {
    s.len() % 2 == 0 && (forall|i: int| 0 <= i < s.len() ==> is_hex_digit(#[trigger] s[i]))
}

/// Strips one leading `0x`, if present.
pub open spec fn strip_0x(s: Seq<char>) -> Seq<char> {
    if s.len() >= 2 && s[0] == '0' && s[1] == 'x' {
        s.skip(2)
    } else {
        s
    }
}

/// The bytes denoted by a hex string body (two digits per byte).
pub open spec fn bytes_of_hex(s: Seq<char>) -> Seq<u8> {
    Seq::new(s.len() / 2, |i: int| (hex_digit_val(s[2 * i]) * 16 + hex_digit_val(s[2 * i + 1])) as u8)
}

/// Relies on array_bytes::bytes2hex with prefix "0x": the result is the
/// prefix followed by two lowercase hex digits per input byte.
#[verifier::external_body]
pub fn hex_string(bytes: &Vec<u8>) -> (r: String)
    ensures
        r@ == hex_str_of(bytes@),
{
    array_bytes::bytes2hex("0x", bytes)
}

/// Collects the characters of a string.
fn collect_chars(s: &str) -> (r: Vec<char>)
    ensures
        r@ == s@,
{
    broadcast use vstd::string::axiom_spec_iter;
    broadcast use vstd::string::next_postcondition;

    let mut it = s.chars();
    let mut chars: Vec<char> = Vec::new();
    proof {
        assert(chars@ + it.remaining() =~= s@);
    }
    loop
        invariant
            it.obeys_prophetic_iter_laws(),
            it.decrease() is Some,
            chars@ + it.remaining() =~= s@,
        decreases (it.decrease() -> 0),
    {
        let ghost pre = chars@;
        match it.next() {
            Some(c) => {
                chars.push(c);
                proof {
                    assert(chars@ + it.remaining() =~= s@);
                }
            },
            None => {
                proof {
                    assert(it.remaining().len() == 0);
                    assert(chars@ =~= s@);
                }
                return chars;
            },
        }
    }
}

/// The numeric value of one hex digit character, or `None`.
fn hex_val_char(c: char) -> (r: Option<u8>)
    ensures
        r is Some <==> is_hex_digit(c),
        r matches Some(v) ==> v as int == hex_digit_val(c) && v < 16,
{
    let u = c as u32;
    if c >= '0' && c <= '9' {
        Some((u - 48) as u8)
    } else if c >= 'a' && c <= 'f' {
        Some((u - 97 + 10) as u8)
    } else if c >= 'A' && c <= 'F' {
        Some((u - 65 + 10) as u8)
    } else {
        None
    }
}

/// Decodes a hex string: one optional `0x` prefix is stripped, and the
/// rest must be an even number of hex digits, upper or lower case, two
/// per byte. Anything else is an error.
pub fn hex_decode(s: &str) -> (r: Result<Vec<u8>, ()>)
    ensures
        r is Ok <==> is_hex_body(strip_0x(s@)),
        r matches Ok(v) ==> v@ == bytes_of_hex(strip_0x(s@)),
{
    let chars = collect_chars(s);
    let start: usize = if chars.len() >= 2 && chars[0] == '0' && chars[1] == 'x' {
        2
    } else {
        0
    };
    let ghost b = strip_0x(s@);
    proof {
        assert(b =~= chars@.skip(start as int));
    }
    let n = chars.len();
    if (n - start) % 2 != 0 {
        proof {
            assert(b.len() == n - start);
            assert(b.len() % 2 != 0);
            assert(!is_hex_body(b));
        }
        return Err(());
    }
    let mut out: Vec<u8> = Vec::new();
    let mut i: usize = start;
    while i < n
        invariant
            n == chars@.len(),
            start <= i <= n,
            (n - start) % 2 == 0,
            (i - start) % 2 == 0,
            b == strip_0x(s@),
            b =~= chars@.skip(start as int),
            forall|j: int| start <= j < i ==> is_hex_digit(#[trigger] chars@[j]),
            out@.len() == (i - start) / 2,
            forall|k: int|
                0 <= k < out@.len() ==> #[trigger] out@[k] as int == hex_digit_val(b[2 * k]) * 16
                    + hex_digit_val(b[2 * k + 1]),
        decreases n - i,
    {
        proof {
            assert(n - i >= 2) by {
                assert((n - i) % 2 == 0);
            }
        }
        let c1 = chars[i];
        let c2 = chars[i + 1];
        let v1 = match hex_val_char(c1) {
            Some(v) => v,
            None => {
                proof {
                    assert(b.len() == n - start);
                    assert(0 <= i - start < b.len());
                    assert(b[i - start] == chars@[i as int]);
                    assert(!is_hex_digit(b[i - start]));
                    assert(!is_hex_body(b));
                }
                return Err(());
            },
        };
        let v2 = match hex_val_char(c2) {
            Some(v) => v,
            None => {
                proof {
                    assert(b.len() == n - start);
                    assert(0 <= i + 1 - start < b.len());
                    assert(b[i + 1 - start] == chars@[i as int + 1]);
                    assert(!is_hex_digit(b[i + 1 - start]));
                    assert(!is_hex_body(b));
                }
                return Err(());
            },
        };
        out.push(v1 * 16 + v2);
        proof {
            let k = (i - start) / 2;
            assert(b[2 * k] == chars@[i as int]);
            assert(b[2 * k + 1] == chars@[i as int + 1]);
        }
        i = i + 2;
    }
    proof {
        assert(is_hex_body(b)) by {
            assert forall|j: int| 0 <= j < b.len() implies is_hex_digit(#[trigger] b[j]) by {
                assert(b[j] == chars@[j + start]);
            }
        }
        assert(out@ =~= bytes_of_hex(b));
    }
    Ok(out)
}

} // verus!
