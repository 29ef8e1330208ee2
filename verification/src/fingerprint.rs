use vstd::prelude::*;

use crate::text::{char_is_whitespace, chars_to_string, is_ws_char};

verus! {

// ---------------------------------------------------------------------------
// The per-line content fingerprint: strip whitespace, hash the remainder with
// xxh32 (seed 0), keep the low 16 bits, render as four lowercase hex digits.
// ---------------------------------------------------------------------------

/// The xxh32 digest of the UTF-8 encoding of a character sequence, under the
/// given seed.
pub uninterp spec fn xxh32_of(data: Seq<char>, seed: u32) -> u32;

/// Relies on xxhash_rust::xxh32::xxh32: the digest of the input bytes (here,
/// the UTF-8 encoding of `s`) under `seed`, a function of those two alone.
#[verifier::external_body]
fn xxh32_str(s: &str, seed: u32) -> (r: u32)
    ensures
        r == xxh32_of(s@, seed),
{
    xxhash_rust::xxh32::xxh32(s.as_bytes(), seed)
}

/// A line with carriage returns and whitespace removed: what the fingerprint
/// actually hashes.
pub open spec fn strip_ws(line: Seq<char>) -> Seq<char> {
    line.filter(|c: char| !(c == '\r') && !is_ws_char(c))
}

/// The lowercase hex digit for a value below 16.
pub open spec fn hex_digit(n: u32) -> char {
    if n == 0 {
        '0'
    } else if n == 1 {
        '1'
    } else if n == 2 {
        '2'
    } else if n == 3 {
        '3'
    } else if n == 4 {
        '4'
    } else if n == 5 {
        '5'
    } else if n == 6 {
        '6'
    } else if n == 7 {
        '7'
    } else if n == 8 {
        '8'
    } else if n == 9 {
        '9'
    } else if n == 10 {
        'a'
    } else if n == 11 {
        'b'
    } else if n == 12 {
        'c'
    } else if n == 13 {
        'd'
    } else if n == 14 {
        'e'
    } else {
        'f'
    }
}

/// Four lowercase hex digits for a 16-bit value, most significant first.
pub open spec fn hex4(h: u32) -> Seq<char> {
    seq![
        hex_digit((h >> 12) & 0xf),
        hex_digit((h >> 8) & 0xf),
        hex_digit((h >> 4) & 0xf),
        hex_digit(h & 0xf),
    ]
}

/// The fingerprint of one line: the low 16 bits of the xxh32 digest (seed 0)
/// of the whitespace-stripped line, as four lowercase hex digits.
pub open spec fn line_fp(line: Seq<char>) -> Seq<char> {
    hex4(xxh32_of(strip_ws(line), 0) & 0xffff)
}

fn hex_digit_exec(n: u32) -> (r: char)
    requires
        n < 16,
    ensures
        r == hex_digit(n),
{
    if n == 0 {
        '0'
    } else if n == 1 {
        '1'
    } else if n == 2 {
        '2'
    } else if n == 3 {
        '3'
    } else if n == 4 {
        '4'
    } else if n == 5 {
        '5'
    } else if n == 6 {
        '6'
    } else if n == 7 {
        '7'
    } else if n == 8 {
        '8'
    } else if n == 9 {
        '9'
    } else if n == 10 {
        'a'
    } else if n == 11 {
        'b'
    } else if n == 12 {
        'c'
    } else if n == 13 {
        'd'
    } else if n == 14 {
        'e'
    } else {
        'f'
    }
}

/// Computes the fingerprint of one line.
pub fn compute_line_hash(line: &str) -> (r: String)
    ensures
        r@ == line_fp(line@),
{
    let n = line.unicode_len();
    let mut kept: Vec<char> = Vec::new();
    let mut i: usize = 0;
    while i < n
        invariant
            n == line@.len(),
            i <= n,
            kept@ == strip_ws(line@.take(i as int)),
        decreases n - i,
    {
        let c = line.get_char(i);
        let keep = c != '\r' && !char_is_whitespace(c);
        proof {
            reveal(Seq::filter);
            assert(line@.take((i + 1) as int) =~= line@.take(i as int).push(c));
            assert(line@.take((i + 1) as int).drop_last() =~= line@.take(i as int));
            if keep {
                assert(strip_ws(line@.take((i + 1) as int)) == strip_ws(line@.take(i as int)).push(
                    c,
                ));
            } else {
                assert(strip_ws(line@.take((i + 1) as int)) == strip_ws(line@.take(i as int)));
            }
        }
        if keep {
            kept.push(c);
        }
        i = i + 1;
    }
    proof {
        assert(line@.take(n as int) =~= line@);
    }
    let stripped = chars_to_string(&kept);
    let h = xxh32_str(stripped.as_str(), 0);
    let t = h & 0xffff;
    proof {
        assert((t >> 12) & 0xf < 16 && (t >> 8) & 0xf < 16 && (t >> 4) & 0xf < 16 && t & 0xf < 16)
            by (bit_vector);
    }
    let mut digits: Vec<char> = Vec::new();
    digits.push(hex_digit_exec((t >> 12) & 0xf));
    digits.push(hex_digit_exec((t >> 8) & 0xf));
    digits.push(hex_digit_exec((t >> 4) & 0xf));
    digits.push(hex_digit_exec(t & 0xf));
    proof {
        assert(digits@ =~= hex4(t));
    }
    chars_to_string(&digits)
}

/// Stripping is idempotent: a filter applied twice is the filter itself.
proof fn lemma_strip_ws_idempotent(line: Seq<char>)
    ensures
        strip_ws(strip_ws(line)) == strip_ws(line),
    decreases line.len(),
{
    reveal(Seq::filter);
    if line.len() > 0 {
        let dl = line.drop_last();
        let l = line.last();
        lemma_strip_ws_idempotent(dl);
        if !(l == '\r') && !is_ws_char(l) {
            assert(strip_ws(line) == strip_ws(dl).push(l));
            assert(strip_ws(dl).push(l).drop_last() =~= strip_ws(dl));
            assert(strip_ws(strip_ws(dl).push(l)) == strip_ws(strip_ws(dl)).push(l));
        } else {
            assert(strip_ws(line) == strip_ws(dl));
        }
    }
}

/// The fingerprint is whitespace-insensitive: a line and its
/// whitespace-stripped form have the same fingerprint.
pub proof fn lemma_fingerprint_whitespace_insensitive(line: Seq<char>)
    ensures
        line_fp(strip_ws(line)) == line_fp(line),
{
    lemma_strip_ws_idempotent(line);
}

} // verus!
