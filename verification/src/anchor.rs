use vstd::prelude::*;

use crate::errors::{HashlineError, SpecError};
use crate::text::{char_is_whitespace, chars_to_string, is_ws_char, split_char, split_chars,
    str_to_chars};

verus! {

// ---------------------------------------------------------------------------
// Anchors: "line:hash" tokens naming a line both by position and by content
// fingerprint. Lines are 1-indexed everywhere.
// ---------------------------------------------------------------------------

/// A parsed anchor. `line` may later be rewritten by relocation; `hash` is
/// canonical (trimmed, lowercase) from the moment of parsing.
#[derive(Debug)]
pub struct LineRef {
    pub line: usize,
    pub hash: String,
}

/// `s` without its leading whitespace.
pub open spec fn trim_start(s: Seq<char>) -> Seq<char>
    decreases s.len(),
{
    if s.len() > 0 && is_ws_char(s[0]) {
        trim_start(s.skip(1))
    } else {
        s
    }
}

/// `s` without its trailing whitespace.
pub open spec fn trim_end(s: Seq<char>) -> Seq<char>
    decreases s.len(),
{
    if s.len() > 0 && is_ws_char(s.last()) {
        trim_end(s.drop_last())
    } else {
        s
    }
}

/// `s` without leading and trailing whitespace.
pub open spec fn trim_ws(s: Seq<char>) -> Seq<char> {
    trim_end(trim_start(s))
}

/// The ASCII-lowercase form of one character.
pub open spec fn lower_char(c: char) -> char {
    match c {
        'A' => 'a',
        'B' => 'b',
        'C' => 'c',
        'D' => 'd',
        'E' => 'e',
        'F' => 'f',
        'G' => 'g',
        'H' => 'h',
        'I' => 'i',
        'J' => 'j',
        'K' => 'k',
        'L' => 'l',
        'M' => 'm',
        'N' => 'n',
        'O' => 'o',
        'P' => 'p',
        'Q' => 'q',
        'R' => 'r',
        'S' => 's',
        'T' => 't',
        'U' => 'u',
        'V' => 'v',
        'W' => 'w',
        'X' => 'x',
        'Y' => 'y',
        'Z' => 'z',
        _ => c,
    }
}

/// The ASCII-lowercase form of a character sequence.
pub open spec fn lower_ascii(s: Seq<char>) -> Seq<char> {
    Seq::new(s.len(), |i: int| lower_char(s[i]))
}

/// Whether `c` is an ASCII decimal digit.
pub open spec fn is_dec_digit(c: char) -> bool {
    48 <= c as u32 && c as u32 <= 57
}

/// The value of a sequence of decimal digits, most significant first.
pub open spec fn dec_val(s: Seq<char>) -> int
    decreases s.len(),
{
    if s.len() == 0 {
        0
    } else {
        dec_val(s.drop_last()) * 10 + ((s.last() as u32) as int - 48)
    }
}

/// Whether every character is an ASCII decimal digit.
pub open spec fn all_dec_digits(s: Seq<char>) -> bool {
    forall|i: int| 0 <= i < s.len() ==> is_dec_digit(#[trigger] s[i])
}

/// The value `s` denotes as a usize, exactly as `usize::from_str` reads it:
/// an optional leading '+', then at least one decimal digit, the whole value
/// fitting in a usize.
pub open spec fn parse_usize(s: Seq<char>) -> Option<int> {
    let digits = if s.len() > 0 && s[0] == '+' {
        s.skip(1)
    } else {
        s
    };
    if digits.len() >= 1 && all_dec_digits(digits) && dec_val(digits) <= usize::MAX {
        Some(dec_val(digits))
    } else {
        None
    }
}

/// What a well-formed anchor token denotes: its 1-indexed line and its
/// canonical (trimmed, lowercased) fingerprint. Malformed tokens denote
/// nothing: not exactly one ':', a line that is not a positive integer,
/// a line of 0, or an empty fingerprint.
pub open spec fn anchor_spec(s: Seq<char>) -> Option<(int, Seq<char>)> {
    let parts = split_char(s, ':');
    if parts.len() != 2 {
        None
    } else {
        match parse_usize(parts[0]) {
            None => None,
            Some(l) => {
                if l == 0 {
                    None
                } else {
                    let h = lower_ascii(trim_ws(parts[1]));
                    if h.len() == 0 {
                        None
                    } else {
                        Some((l, h))
                    }
                }
            },
        }
    }
}

/// Once a prefix of the digit string already exceeds usize::MAX, the whole
/// string does too.
proof fn lemma_dec_val_grows(s: Seq<char>, k: int)
    requires
        0 <= k <= s.len(),
        dec_val(s.take(k)) > usize::MAX,
    ensures
        dec_val(s) > usize::MAX,
    decreases s.len() - k,
{
    if k == s.len() {
        assert(s.take(k) =~= s);
    } else {
        let t1 = s.take(k + 1);
        assert(t1.drop_last() =~= s.take(k));
        assert(t1.last() == s[k]);
        let v = dec_val(s.take(k));
        assert(dec_val(t1) == v * 10 + ((s[k] as u32) as int - 48));
        assert(v * 10 + ((s[k] as u32) as int - 48) > usize::MAX) by (nonlinear_arith)
            requires
                v > usize::MAX,
                (s[k] as u32) as int >= 0,
        {
        }
        lemma_dec_val_grows(s, k + 1);
    }
}

/// Reads a usize from decimal digits with an optional leading '+'.
fn parse_usize_exec(v: &Vec<char>) -> (r: Option<usize>)
    ensures
        match r {
            Some(n) => parse_usize(v@) == Some(n as int),
            None => parse_usize(v@) is None,
        },
{
    let mut start: usize = 0;
    if v.len() > 0 && v[0] == '+' {
        start = 1;
    }
    let ghost digits = if v@.len() > 0 && v@[0] == '+' {
        v@.skip(1)
    } else {
        v@
    };
    if start >= v.len() {
        proof {
            assert(digits.len() == 0);
        }
        return None;
    }
    proof {
        assert(v@.skip(0) =~= v@);
    }
    let mut acc: usize = 0;
    let mut i: usize = start;
    while i < v.len()
        invariant
            start <= i <= v@.len(),
            start <= 1,
            v@.len() <= usize::MAX,
            start == 1 <==> v@.len() > 0 && v@[0] == '+',
            digits == v@.skip(start as int),
            digits == (if v@.len() > 0 && v@[0] == '+' {
                v@.skip(1)
            } else {
                v@
            }),
            forall|j: int| 0 <= j < i - start ==> is_dec_digit(#[trigger] digits[j]),
            acc as int == dec_val(digits.take(i - start)),
        decreases v@.len() - i,
    {
        let c = v[i];
        let cu = c as u32;
        proof {
            assert(digits[i - start] == v@[i as int]);
            assert(digits.take(i + 1 - start).drop_last() =~= digits.take(i - start));
            assert(digits.take(i + 1 - start).last() == digits[i - start]);
        }
        if cu < 48 || cu > 57 {
            proof {
                assert(!is_dec_digit(digits[i - start]));
                assert(!all_dec_digits(digits));
            }
            return None;
        }
        let d = cu - 48;
        if acc > (usize::MAX - d as usize) / 10 {
            proof {
                let va = acc as int;
                let dd = d as int;
                assert(va * 10 + dd > usize::MAX) by (nonlinear_arith)
                    requires
                        va > (usize::MAX - dd) / 10,
                        0 <= dd <= 9,
                        usize::MAX >= 9,
                {
                }
                assert(dec_val(digits.take(i + 1 - start)) > usize::MAX);
                lemma_dec_val_grows(digits, i + 1 - start);
            }
            return None;
        }
        proof {
            let va = acc as int;
            let dd = d as int;
            assert(va * 10 + dd <= usize::MAX) by (nonlinear_arith)
                requires
                    va <= (usize::MAX - dd) / 10,
                    0 <= dd <= 9,
            {
            }
        }
        acc = acc * 10 + d as usize;
        i = i + 1;
    }
    proof {
        assert(digits.take(v@.len() - start) =~= digits);
    }
    Some(acc)
}

/// Removes leading and trailing whitespace.
fn trim_vec(v: Vec<char>) -> (r: Vec<char>)
    ensures
        r@ == trim_ws(v@),
{
    let ghost g = v@;
    let mut v = v;
    while v.len() > 0 && char_is_whitespace(v[0])
        invariant
            trim_start(v@) == trim_start(g),
        decreases v@.len(),
    {
        v.remove(0);
    }
    proof {
        assert(trim_start(v@) == v@);
    }
    while v.len() > 0 && char_is_whitespace(v[v.len() - 1])
        invariant
            trim_end(v@) == trim_end(trim_start(g)),
        decreases v@.len(),
    {
        let ghost before = v@;
        v.pop();
        proof {
            assert(v@ =~= before.drop_last());
        }
    }
    proof {
        assert(trim_end(v@) == v@);
    }
    v
}

fn lower_char_exec(c: char) -> (r: char)
    ensures
        r == lower_char(c),
{
    match c {
        'A' => 'a',
        'B' => 'b',
        'C' => 'c',
        'D' => 'd',
        'E' => 'e',
        'F' => 'f',
        'G' => 'g',
        'H' => 'h',
        'I' => 'i',
        'J' => 'j',
        'K' => 'k',
        'L' => 'l',
        'M' => 'm',
        'N' => 'n',
        'O' => 'o',
        'P' => 'p',
        'Q' => 'q',
        'R' => 'r',
        'S' => 's',
        'T' => 't',
        'U' => 'u',
        'V' => 'v',
        'W' => 'w',
        'X' => 'x',
        'Y' => 'y',
        'Z' => 'z',
        _ => c,
    }
}

fn lower_vec(v: &Vec<char>) -> (r: Vec<char>)
    ensures
        r@ == lower_ascii(v@),
{
    let mut out: Vec<char> = Vec::new();
    let mut i: usize = 0;
    while i < v.len()
        invariant
            i <= v@.len(),
            out@ == lower_ascii(v@.take(i as int)),
        decreases v@.len() - i,
    {
        let c = lower_char_exec(v[i]);
        proof {
            assert(lower_ascii(v@.take((i + 1) as int)) =~= lower_ascii(v@.take(i as int)).push(
                lower_char(v@[i as int]),
            ));
        }
        out.push(c);
        i = i + 1;
    }
    proof {
        assert(v@.take(v@.len() as int) =~= v@);
        assert(lower_ascii(v@.take(v@.len() as int)) =~= lower_ascii(v@));
    }
    out
}

/// Parses a "line:hash" anchor token. Fails exactly when the token is
/// malformed: not exactly one ':', a line that is not a positive integer,
/// a line of 0, or an empty hash after trimming. The hash is canonicalized
/// to lowercase.
pub fn parse_line_ref(s: &str) -> (r: Result<LineRef, HashlineError>)
    ensures
        match r {
            Ok(lr) => anchor_spec(s@) == Some((lr.line as int, lr.hash@)) && lr.line >= 1,
            Err(e) => anchor_spec(s@) is None && e@ == (SpecError::InvalidAnchor { token: s@ }),
        },
{
    let cs = str_to_chars(s);
    let parts = split_chars(&cs, ':');
    if parts.len() != 2 {
        return Err(HashlineError::InvalidAnchor { token: String::from_str(s) });
    }
    let line_cs = str_to_chars(parts[0].as_str());
    proof {
        assert(line_cs@ == split_char(s@, ':')[0]);
    }
    let line = match parse_usize_exec(&line_cs) {
        Some(n) => n,
        None => {
            return Err(HashlineError::InvalidAnchor { token: String::from_str(s) });
        },
    };
    if line == 0 {
        return Err(HashlineError::InvalidAnchor { token: String::from_str(s) });
    }
    let hash_cs = str_to_chars(parts[1].as_str());
    proof {
        assert(hash_cs@ == split_char(s@, ':')[1]);
    }
    let trimmed = trim_vec(hash_cs);
    let lowered = lower_vec(&trimmed);
    if lowered.len() == 0 {
        return Err(HashlineError::InvalidAnchor { token: String::from_str(s) });
    }
    let hash = chars_to_string(&lowered);
    Ok(LineRef { line, hash })
}

} // verus!
