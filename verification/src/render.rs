use vstd::prelude::*;

use crate::errors::{mismatches_view, Mismatch, SpecMismatch};
use crate::fingerprint::{compute_line_hash, line_fp};
use crate::text::{chars_to_string, lines_view, str_to_chars};

verus! {

// ---------------------------------------------------------------------------
// Rendering: the stale-anchor report, a minimal change preview, and the
// read-mode listing. Pure functions from values to text.
// ---------------------------------------------------------------------------

/// The decimal digit for a value below 10.
pub open spec fn dec_digit(n: int) -> char {
    if n == 0 {
        '0'
    } else if n == 1 {
        '1'
    } else if n == 2 {
        '2'
    } else if n == 3 {
        '3'
    } else if n == 4 {
        '4'
    } else if n == 5 {
        '5'
    } else if n == 6 {
        '6'
    } else if n == 7 {
        '7'
    } else if n == 8 {
        '8'
    } else {
        '9'
    }
}

/// The decimal rendering of a non-negative number, most significant digit
/// first.
pub open spec fn dec_str(n: int) -> Seq<char>
    decreases n,
{
    if n < 10 {
        seq![dec_digit(n)]
    } else {
        dec_str(n / 10).push(dec_digit(n % 10))
    }
}

fn dec_digit_exec(n: usize) -> (r: char)
    requires
        n < 10,
    ensures
        r == dec_digit(n as int),
{
    if n == 0 {
        '0'
    } else if n == 1 {
        '1'
    } else if n == 2 {
        '2'
    } else if n == 3 {
        '3'
    } else if n == 4 {
        '4'
    } else if n == 5 {
        '5'
    } else if n == 6 {
        '6'
    } else if n == 7 {
        '7'
    } else if n == 8 {
        '8'
    } else {
        '9'
    }
}

/// Appends the decimal rendering of `n`.
fn push_dec(out: &mut Vec<char>, n: usize)
    ensures
        final(out)@ == old(out)@ + dec_str(n as int),
    decreases n,
{
    if n < 10 {
        let c = dec_digit_exec(n);
        proof {
            assert(old(out)@ + seq![dec_digit(n as int)] =~= old(out)@.push(dec_digit(n as int)));
        }
        out.push(c);
    } else {
        push_dec(out, n / 10);
        let c = dec_digit_exec(n % 10);
        proof {
            assert(old(out)@ + dec_str((n / 10) as int).push(dec_digit(n as int % 10)) =~= (old(
                out,
            )@ + dec_str((n / 10) as int)).push(dec_digit(n as int % 10)));
        }
        out.push(c);
    }
}

/// Appends the characters of `s`.
fn push_str_chars(out: &mut Vec<char>, s: &str)
    ensures
        final(out)@ == old(out)@ + s@,
{
    let cs = str_to_chars(s);
    let ghost base = out@;
    let mut i: usize = 0;
    while i < cs.len()
        invariant
            i <= cs@.len(),
            cs@ == s@,
            out@ == base + cs@.take(i as int),
        decreases cs@.len() - i,
    {
        proof {
            assert(base + cs@.take((i + 1) as int) =~= (base + cs@.take(i as int)).push(
                cs@[i as int],
            ));
        }
        out.push(cs[i]);
        i = i + 1;
    }
    proof {
        assert(base + cs@.take(cs@.len() as int) =~= base + s@);
    }
}

/// The line a mismatch points at, empty when it is out of bounds.
pub open spec fn mismatch_line_text(lines: Seq<Seq<char>>, m: SpecMismatch) -> Seq<char> {
    if 1 <= m.line <= lines.len() {
        lines[m.line - 1]
    } else {
        Seq::<char>::empty()
    }
}

/// One report block: the current state of the line and the hash the anchor
/// expected.
pub open spec fn mismatch_block(lines: Seq<Seq<char>>, m: SpecMismatch) -> Seq<char> {
    (">>> ")@ + dec_str(m.line as int) + (":")@ + m.actual + ("|")@ + mismatch_line_text(lines, m)
        + ("\n    expected ")@ + m.expected + ("\n\n")@
}

/// All report blocks, in order.
pub open spec fn mismatch_blocks(lines: Seq<Seq<char>>, ms: Seq<SpecMismatch>) -> Seq<char>
    decreases ms.len(),
{
    if ms.len() == 0 {
        Seq::<char>::empty()
    } else {
        mismatch_blocks(lines, ms.drop_last()) + mismatch_block(lines, ms.last())
    }
}

/// One line of the machine-followable remap table.
pub open spec fn remap_line(m: SpecMismatch) -> Seq<char> {
    ("  ")@ + dec_str(m.line as int) + (":")@ + m.expected + (" -> ")@ + dec_str(m.line as int) + (
    ":")@ + m.actual + ("\n")@
}

/// The whole remap table.
pub open spec fn remap_lines(ms: Seq<SpecMismatch>) -> Seq<char>
    decreases ms.len(),
{
    if ms.len() == 0 {
        Seq::<char>::empty()
    } else {
        remap_lines(ms.drop_last()) + remap_line(ms.last())
    }
}

/// The full stale-anchor report: a count and an instruction to re-read, one
/// block per mismatch, then the remap table.
pub open spec fn render_mismatch_spec(lines: Seq<Seq<char>>, ms: Seq<SpecMismatch>) -> Seq<char> {
    dec_str(ms.len() as int)
        + (" line(s) have changed since last read. Re-read the file and use updated LINE:HASH refs.\n\n")@
        + mismatch_blocks(lines, ms) + ("Quick fix: replace stale refs:\n")@ + remap_lines(ms)
}

/// Renders the stale-anchor report for a failed batch.
pub fn render_mismatch_error(lines: &Vec<String>, mismatches: &Vec<Mismatch>) -> (r: String)
    ensures
        r@ == render_mismatch_spec(lines_view(lines@), mismatches_view(mismatches@)),
{
    let ghost lv = lines_view(lines@);
    let ghost mv = mismatches_view(mismatches@);
    let mut out: Vec<char> = Vec::new();
    proof {
        assert(out@ + dec_str(mv.len() as int) =~= dec_str(mv.len() as int));
    }
    push_dec(&mut out, mismatches.len());
    push_str_chars(
        &mut out,
        " line(s) have changed since last read. Re-read the file and use updated LINE:HASH refs.\n\n",
    );
    let ghost header = out@;
    proof {
        assert(header + mismatch_blocks(lv, mv.take(0)) =~= header);
    }
    let mut i: usize = 0;
    while i < mismatches.len()
        invariant
            i <= mismatches@.len(),
            lv == lines_view(lines@),
            mv == mismatches_view(mismatches@),
            out@ == header + mismatch_blocks(lv, mv.take(i as int)),
        decreases mismatches@.len() - i,
    {
        proof {
            assert(mv.take((i + 1) as int).drop_last() =~= mv.take(i as int));
            assert(mv.take((i + 1) as int).last() == mv[i as int]);
        }
        let ghost pre = out@;
        let m = &mismatches[i];
        push_str_chars(&mut out, ">>> ");
        push_dec(&mut out, m.line);
        push_str_chars(&mut out, ":");
        push_str_chars(&mut out, m.actual.as_str());
        push_str_chars(&mut out, "|");
        if m.line >= 1 && m.line - 1 < lines.len() {
            push_str_chars(&mut out, lines[m.line - 1].as_str());
        }
        push_str_chars(&mut out, "\n    expected ");
        push_str_chars(&mut out, m.expected.as_str());
        push_str_chars(&mut out, "\n\n");
        proof {
            assert(out@ =~= pre + mismatch_block(lv, mv[i as int]));
            assert(out@ =~= header + mismatch_blocks(lv, mv.take((i + 1) as int)));
        }
        i = i + 1;
    }
    proof {
        assert(mv.take(mismatches@.len() as int) =~= mv);
    }
    push_str_chars(&mut out, "Quick fix: replace stale refs:\n");
    let ghost header2 = out@;
    proof {
        assert(header2 + remap_lines(mv.take(0)) =~= header2);
    }
    let mut j: usize = 0;
    while j < mismatches.len()
        invariant
            j <= mismatches@.len(),
            lv == lines_view(lines@),
            mv == mismatches_view(mismatches@),
            header2 == header + mismatch_blocks(lv, mv) + ("Quick fix: replace stale refs:\n")@,
            header == dec_str(mv.len() as int)
                + (" line(s) have changed since last read. Re-read the file and use updated LINE:HASH refs.\n\n")@,
            out@ == header2 + remap_lines(mv.take(j as int)),
        decreases mismatches@.len() - j,
    {
        proof {
            assert(mv.take((j + 1) as int).drop_last() =~= mv.take(j as int));
            assert(mv.take((j + 1) as int).last() == mv[j as int]);
        }
        let ghost pre = out@;
        let m = &mismatches[j];
        push_str_chars(&mut out, "  ");
        push_dec(&mut out, m.line);
        push_str_chars(&mut out, ":");
        push_str_chars(&mut out, m.expected.as_str());
        push_str_chars(&mut out, " -> ");
        push_dec(&mut out, m.line);
        push_str_chars(&mut out, ":");
        push_str_chars(&mut out, m.actual.as_str());
        push_str_chars(&mut out, "\n");
        proof {
            assert(out@ =~= pre + remap_line(mv[j as int]));
            assert(out@ =~= header2 + remap_lines(mv.take((j + 1) as int)));
        }
        j = j + 1;
    }
    proof {
        assert(mv.take(mismatches@.len() as int) =~= mv);
        assert(out@ =~= render_mismatch_spec(lv, mv));
    }
    chars_to_string(&out)
}

/// The minimal change preview: '-' lines from the old text and '+' lines
/// from the new, position by position, equal pairs elided.
pub open spec fn diff_spec(o: Seq<Seq<char>>, n: Seq<Seq<char>>) -> Seq<char>
    decreases o.len() + n.len(),
{
    if o.len() == 0 && n.len() == 0 {
        Seq::<char>::empty()
    } else if o.len() == 0 {
        seq!['+'] + n[0] + seq!['\n'] + diff_spec(o, n.skip(1))
    } else if n.len() == 0 {
        seq!['-'] + o[0] + seq!['\n'] + diff_spec(o.skip(1), n)
    } else if o[0] == n[0] {
        diff_spec(o.skip(1), n.skip(1))
    } else {
        seq!['-'] + o[0] + seq!['\n'] + seq!['+'] + n[0] + seq!['\n'] + diff_spec(
            o.skip(1),
            n.skip(1),
        )
    }
}

/// Renders the minimal change preview between two line sequences.
pub fn render_basic_diff(old_lines: &Vec<String>, new_lines: &Vec<String>) -> (r: String)
    ensures
        r@ == diff_spec(lines_view(old_lines@), lines_view(new_lines@)),
{
    let ghost ov = lines_view(old_lines@);
    let ghost nv = lines_view(new_lines@);
    let mut out: Vec<char> = Vec::new();
    proof {
        assert(ov.skip(0) =~= ov);
        assert(nv.skip(0) =~= nv);
        assert(out@ + diff_spec(ov, nv) =~= diff_spec(ov, nv));
    }
    let mut i: usize = 0;
    while i < old_lines.len() || i < new_lines.len()
        invariant
            ov == lines_view(old_lines@),
            nv == lines_view(new_lines@),
            i <= ov.len() || i <= nv.len(),
            diff_spec(ov, nv) == out@ + diff_spec(
                ov.skip(if i <= ov.len() {
                    i as int
                } else {
                    ov.len() as int
                }),
                nv.skip(if i <= nv.len() {
                    i as int
                } else {
                    nv.len() as int
                }),
            ),
        decreases (if i <= ov.len() {
            ov.len() - i
        } else {
            0
        }) + (if i <= nv.len() {
            nv.len() - i
        } else {
            0
        }),
    {
        let ghost oi = if i <= ov.len() { i as int } else { ov.len() as int };
        let ghost ni = if i <= nv.len() { i as int } else { nv.len() as int };
        let ghost pre = out@;
        if i < old_lines.len() && i < new_lines.len() {
            proof {
                assert(ov.skip(oi)[0] == ov[i as int]);
                assert(nv.skip(ni)[0] == nv[i as int]);
                assert(ov.skip(oi).skip(1) =~= ov.skip(i + 1));
                assert(nv.skip(ni).skip(1) =~= nv.skip(i + 1));
            }
            if old_lines[i] == new_lines[i] {
            } else {
                push_str_chars(&mut out, "-");
                push_str_chars(&mut out, old_lines[i].as_str());
                push_str_chars(&mut out, "\n");
                push_str_chars(&mut out, "+");
                push_str_chars(&mut out, new_lines[i].as_str());
                push_str_chars(&mut out, "\n");
                proof {
                    reveal_strlit("-");
                    reveal_strlit("+");
                    reveal_strlit("\n");
                    assert(out@ =~= pre + (seq!['-'] + ov[i as int] + seq!['\n'] + seq!['+']
                        + nv[i as int] + seq!['\n']));
                }
            }
        } else if i < old_lines.len() {
            proof {
                assert(ov.skip(oi)[0] == ov[i as int]);
                assert(ov.skip(oi).skip(1) =~= ov.skip(i + 1));
                assert(nv.skip(ni).len() == 0);
            }
            push_str_chars(&mut out, "-");
            push_str_chars(&mut out, old_lines[i].as_str());
            push_str_chars(&mut out, "\n");
            proof {
                reveal_strlit("-");
                reveal_strlit("\n");
                assert(out@ =~= pre + (seq!['-'] + ov[i as int] + seq!['\n']));
            }
        } else {
            proof {
                assert(nv.skip(ni)[0] == nv[i as int]);
                assert(nv.skip(ni).skip(1) =~= nv.skip(i + 1));
                assert(ov.skip(oi).len() == 0);
            }
            push_str_chars(&mut out, "+");
            push_str_chars(&mut out, new_lines[i].as_str());
            push_str_chars(&mut out, "\n");
            proof {
                reveal_strlit("+");
                reveal_strlit("\n");
                assert(out@ =~= pre + (seq!['+'] + nv[i as int] + seq!['\n']));
            }
        }
        i = i + 1;
    }
    proof {
        assert(diff_spec(ov, nv) =~= out@);
    }
    chars_to_string(&out)
}

/// The read-mode listing: for each line from `start` (1-indexed) on, at most
/// `left` lines of `number:hash|content`.
pub open spec fn read_lines_spec(lines: Seq<Seq<char>>, no: int, start: int, left: int) -> Seq<
    char,
>
    decreases lines.len(),
{
    if lines.len() == 0 || left <= 0 {
        Seq::<char>::empty()
    } else if no < start {
        read_lines_spec(lines.skip(1), no + 1, start, left)
    } else {
        dec_str(no) + (":")@ + line_fp(lines[0]) + ("|")@ + lines[0] + ("\n")@ + read_lines_spec(
            lines.skip(1),
            no + 1,
            start,
            left - 1,
        )
    }
}

/// Renders the read-mode listing of the lines, with their fingerprints.
pub fn render_read_lines(lines: &Vec<String>, start: usize, max_lines: usize) -> (r: String)
    ensures
        r@ == read_lines_spec(lines_view(lines@), 1, start as int, max_lines as int),
{
    let ghost lv = lines_view(lines@);
    let mut out: Vec<char> = Vec::new();
    let mut printed: usize = 0;
    let mut i: usize = 0;
    proof {
        assert(lv.skip(0) =~= lv);
        assert(out@ + read_lines_spec(lv, 1, start as int, max_lines as int) =~= read_lines_spec(
            lv,
            1,
            start as int,
            max_lines as int,
        ));
    }
    while i < lines.len() && printed < max_lines
        invariant
            i <= lv.len(),
            printed <= max_lines,
            lv == lines_view(lines@),
            read_lines_spec(lv, 1, start as int, max_lines as int) == out@ + read_lines_spec(
                lv.skip(i as int),
                i + 1,
                start as int,
                max_lines as int - printed,
            ),
        decreases lv.len() - i,
    {
        proof {
            assert(lv.skip(i as int)[0] == lv[i as int]);
            assert(lv.skip(i as int).skip(1) =~= lv.skip(i + 1));
        }
        let ghost pre = out@;
        if i + 1 < start {
            i = i + 1;
            continue;
        }
        let h = compute_line_hash(lines[i].as_str());
        push_dec(&mut out, i + 1);
        push_str_chars(&mut out, ":");
        push_str_chars(&mut out, h.as_str());
        push_str_chars(&mut out, "|");
        push_str_chars(&mut out, lines[i].as_str());
        push_str_chars(&mut out, "\n");
        proof {
            assert(out@ =~= pre + (dec_str(i + 1) + (":")@ + line_fp(lv[i as int]) + ("|")@
                + lv[i as int] + ("\n")@));
        }
        printed = printed + 1;
        i = i + 1;
    }
    proof {
        if i >= lv.len() {
            assert(lv.skip(lv.len() as int).len() == 0);
        }
    }
    chars_to_string(&out)
}

} // verus!
