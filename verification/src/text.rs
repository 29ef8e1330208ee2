use vstd::prelude::*;

verus! {

// ---------------------------------------------------------------------------
// The mathematical model of text used throughout the crate: a file is a
// sequence of lines, a line is a sequence of characters.
// ---------------------------------------------------------------------------

/// The view of an executable line sequence.
pub open spec fn lines_view(v: Seq<String>) -> Seq<Seq<char>> {
    Seq::new(v.len(), |i: int| v[i]@)
}

/// Whether the character has the Unicode White_Space property.
pub uninterp spec fn is_ws_char(c: char) -> bool;

/// Relies on char::is_whitespace: whether the character has the Unicode
/// White_Space property, which depends on the character alone.
#[verifier::external_body]
pub(crate) fn char_is_whitespace(c: char) -> (r: bool)
    ensures
        r == is_ws_char(c),
{
    c.is_whitespace()
}

/// Relies on Iterator::collect for String: the collected string holds exactly
/// the characters of `v`, in order.
#[verifier::external_body]
pub(crate) fn chars_to_string(v: &Vec<char>) -> (r: String)
    ensures
        r@ == v@,
{
    v.iter().collect()
}

/// Copies the characters of a string slice into a vector.
pub fn str_to_chars(s: &str) -> (r: Vec<char>)
    ensures
        r@ == s@,
{
    let n = s.unicode_len();
    let mut out: Vec<char> = Vec::new();
    let mut i: usize = 0;
    while i < n
        invariant
            n == s@.len(),
            i <= n,
            out@ == s@.take(i as int),
        decreases n - i,
    {
        let c = s.get_char(i);
        proof {
            assert(s@.take((i + 1) as int) =~= s@.take(i as int).push(s@[i as int]));
        }
        out.push(c);
        i = i + 1;
    }
    proof {
        assert(s@.take(n as int) =~= s@);
    }
    out
}

// ---------------------------------------------------------------------------
// Splitting on a separator character and joining with it.
// ---------------------------------------------------------------------------

/// Splitting a character sequence on a separator, keeping empty segments,
/// exactly as `str::split` does with a single-character pattern.
pub open spec fn split_char(s: Seq<char>, sep: char) -> Seq<Seq<char>>
    decreases s.len(),
{
    if s.len() == 0 {
        seq![Seq::<char>::empty()]
    } else {
        let rest = split_char(s.drop_last(), sep);
        if s.last() == sep {
            rest.push(Seq::<char>::empty())
        } else {
            rest.drop_last().push(rest.last().push(s.last()))
        }
    }
}

/// Joining a sequence of segments with a separator character.
pub open spec fn join_char(parts: Seq<Seq<char>>, sep: char) -> Seq<char>
    decreases parts.len(),
{
    if parts.len() == 0 {
        Seq::<char>::empty()
    } else if parts.len() == 1 {
        parts[0]
    } else {
        join_char(parts.drop_last(), sep).push(sep) + parts.last()
    }
}

/// Splits a character vector on a separator, keeping empty segments.
pub fn split_chars(s: &Vec<char>, sep: char) -> (r: Vec<String>)
    ensures
        lines_view(r@) == split_char(s@, sep),
{
    let mut parts: Vec<String> = Vec::new();
    let mut buf: Vec<char> = Vec::new();
    let mut i: usize = 0;
    while i < s.len()
        invariant
            i <= s@.len(),
            lines_view(parts@).push(buf@) == split_char(s@.take(i as int), sep),
        decreases s@.len() - i,
    {
        let c = s[i];
        proof {
            assert(s@.take((i + 1) as int).drop_last() =~= s@.take(i as int));
            assert(s@.take((i + 1) as int).last() == s@[i as int]);
        }
        if c == sep {
            let done = chars_to_string(&buf);
            proof {
                assert(lines_view(parts@.push(done)).push(Seq::<char>::empty()) =~= lines_view(
                    parts@,
                ).push(buf@).push(Seq::<char>::empty()));
            }
            parts.push(done);
            buf = Vec::new();
        } else {
            proof {
                let prev = lines_view(parts@).push(buf@);
                assert(prev.drop_last() =~= lines_view(parts@));
                assert(lines_view(parts@).push(buf@.push(c)) =~= prev.drop_last().push(
                    prev.last().push(c),
                ));
            }
            buf.push(c);
        }
        i = i + 1;
    }
    proof {
        assert(s@.take(s@.len() as int) =~= s@);
    }
    let done = chars_to_string(&buf);
    proof {
        assert(lines_view(parts@.push(done)) =~= lines_view(parts@).push(buf@));
    }
    parts.push(done);
    parts
}

/// Joins the lines with a separator character.
pub fn join_lines(lines: &Vec<String>, sep: char) -> (r: Vec<char>)
    ensures
        r@ == join_char(lines_view(lines@), sep),
{
    let mut out: Vec<char> = Vec::new();
    let mut i: usize = 0;
    while i < lines.len()
        invariant
            i <= lines@.len(),
            out@ == join_char(lines_view(lines@).take(i as int), sep),
        decreases lines@.len() - i,
    {
        proof {
            let lv = lines_view(lines@);
            assert(lv.take((i + 1) as int).drop_last() =~= lv.take(i as int));
            assert(lv.take((i + 1) as int).last() == lv[i as int]);
        }
        if i > 0 {
            out.push(sep);
        }
        let mut cs = str_to_chars(lines[i].as_str());
        let mut j: usize = 0;
        let ghost base = out@;
        while j < cs.len()
            invariant
                j <= cs@.len(),
                out@ == base + cs@.take(j as int),
            decreases cs@.len() - j,
        {
            proof {
                assert(base + cs@.take((j + 1) as int) =~= (base + cs@.take(j as int)).push(
                    cs@[j as int],
                ));
            }
            out.push(cs[j]);
            j = j + 1;
        }
        proof {
            assert(cs@.take(cs@.len() as int) =~= cs@);
            let lv = lines_view(lines@);
            if i > 0 {
                assert(out@ =~= join_char(lv.take(i as int), sep).push(sep) + lv[i as int]);
            } else {
                assert(out@ =~= lv[0]);
            }
        }
        i = i + 1;
    }
    proof {
        assert(lines_view(lines@).take(lines@.len() as int) =~= lines_view(lines@));
    }
    out
}

// ---------------------------------------------------------------------------
// Substring search and replacement.
// ---------------------------------------------------------------------------

/// Whether `pat` occurs in `s` at position `i`.
pub open spec fn is_match_at(s: Seq<char>, pat: Seq<char>, i: int) -> bool {
    0 <= i && i + pat.len() <= s.len() && s.subrange(i, i + pat.len()) == pat
}

/// The position of the leftmost occurrence of `pat` in `s`, if any.
pub open spec fn find_sub(s: Seq<char>, pat: Seq<char>) -> Option<int>
    decreases s.len(),
    via find_sub_decreases
{
    if pat.len() > s.len() {
        None
    } else if s.take(pat.len() as int) == pat {
        Some(0)
    } else {
        match find_sub(s.skip(1), pat) {
            Some(i) => Some(i + 1),
            None => None,
        }
    }
}

#[via_fn]
proof fn find_sub_decreases(s: Seq<char>, pat: Seq<char>) {
    if pat.len() <= s.len() && s.take(pat.len() as int) != pat {
        if s.len() == 0 {
            assert(s.take(pat.len() as int) =~= pat);
        }
    }
}

pub proof fn lemma_find_sub_some(s: Seq<char>, pat: Seq<char>)
    ensures
        match find_sub(s, pat) {
            Some(i) => is_match_at(s, pat, i) && (forall|j: int|
                0 <= j < i ==> !is_match_at(s, pat, j)),
            None => forall|j: int| !is_match_at(s, pat, j),
        },
    decreases s.len(),
{
    if pat.len() > s.len() {
        assert forall|j: int| !is_match_at(s, pat, j) by {}
    } else if s.take(pat.len() as int) == pat {
        assert(s.subrange(0, pat.len() as int) =~= s.take(pat.len() as int));
    } else {
        if s.len() == 0 {
            assert(s.take(pat.len() as int) =~= pat);
        }
        lemma_find_sub_some(s.skip(1), pat);
        assert forall|j: int| 1 <= j implies (is_match_at(s, pat, j) <==> is_match_at(
            s.skip(1),
            pat,
            j - 1,
        )) by {
            if 1 <= j && j + pat.len() <= s.len() {
                assert(s.subrange(j, j + pat.len()) =~= s.skip(1).subrange(
                    j - 1,
                    j - 1 + pat.len(),
                ));
            }
        }
        assert(!is_match_at(s, pat, 0)) by {
            if is_match_at(s, pat, 0) {
                assert(s.subrange(0, pat.len() as int) =~= s.take(pat.len() as int));
            }
        }
    }
}

/// Replacing every non-overlapping occurrence of `pat` in `s` with `rep`,
/// scanning left to right, exactly as `str::replace` does.
pub open spec fn replace_all(s: Seq<char>, pat: Seq<char>, rep: Seq<char>) -> Seq<char>
    decreases s.len(),
    via replace_all_decreases
{
    if pat.len() == 0 {
        s
    } else {
        match find_sub(s, pat) {
            None => s,
            Some(i) => s.take(i) + rep + replace_all(s.skip(i + pat.len() as int), pat, rep),
        }
    }
}

#[via_fn]
proof fn replace_all_decreases(s: Seq<char>, pat: Seq<char>, rep: Seq<char>) {
    if pat.len() > 0 {
        lemma_find_sub_some(s, pat);
    }
}

/// Finds the leftmost occurrence of `pat` in `s`.
pub fn find_sub_at(s: &Vec<char>, pat: &Vec<char>) -> (r: Option<usize>)
    ensures
        match r {
            Some(i) => find_sub(s@, pat@) == Some(i as int),
            None => find_sub(s@, pat@) is None,
        },
{
    proof {
        lemma_find_sub_some(s@, pat@);
    }
    if pat.len() > s.len() {
        return None;
    }
    let mut i: usize = 0;
    while i <= s.len() - pat.len()
        invariant
            pat@.len() <= s@.len(),
            i <= s@.len() - pat@.len() + 1,
            forall|j: int| 0 <= j < i ==> !is_match_at(s@, pat@, j),
        decreases s@.len() - pat@.len() - i + 1,
    {
        let mut j: usize = 0;
        let mut hit = true;
        while j < pat.len()
            invariant
                pat@.len() <= s@.len(),
                s@.len() <= usize::MAX,
                i + pat@.len() <= s@.len(),
                j <= pat@.len(),
                hit <==> s@.subrange(i as int, i + j as int) =~= pat@.take(j as int),
            decreases pat@.len() - j,
        {
            proof {
                assert(i + j < s@.len());
                assert(s@.subrange(i as int, i + j + 1 as int) =~= s@.subrange(
                    i as int,
                    i + j as int,
                ).push(s@[i + j]));
                assert(pat@.take((j + 1) as int) =~= pat@.take(j as int).push(pat@[j as int]));
            }
            if s[i + j] != pat[j] {
                hit = false;
                proof {
                    assert(s@.subrange(i as int, i + j + 1 as int).last() != pat@.take(
                        (j + 1) as int,
                    ).last());
                }
            } else {
                proof {
                    if s@.subrange(i as int, i + j as int) =~= pat@.take(j as int) {
                    } else {
                        assert(s@.subrange(i as int, i + j + 1 as int).drop_last() =~= s@.subrange(
                            i as int,
                            i + j as int,
                        ));
                        assert(pat@.take((j + 1) as int).drop_last() =~= pat@.take(j as int));
                    }
                }
            }
            j = j + 1;
        }
        if hit {
            proof {
                assert(pat@.take(pat@.len() as int) =~= pat@);
                assert(is_match_at(s@, pat@, i as int));
                lemma_find_sub_some(s@, pat@);
                match find_sub(s@, pat@) {
                    Some(k) => {
                        assert(!(k < i as int) && !((i as int) < k));
                    },
                    None => {},
                }
            }
            return Some(i);
        }
        proof {
            assert(pat@.take(pat@.len() as int) =~= pat@);
        }
        i = i + 1;
    }
    proof {
        assert forall|j: int| !is_match_at(s@, pat@, j) by {}
    }
    None
}

/// Replaces every non-overlapping occurrence of `pat` in `s` with `rep`.
pub fn replace_all_chars(s: &Vec<char>, pat: &Vec<char>, rep: &Vec<char>) -> (r: Vec<char>)
    requires
        pat@.len() >= 1,
    ensures
        r@ == replace_all(s@, pat@, rep@),
{
    let mut out: Vec<char> = Vec::new();
    let mut rest: Vec<char> = Vec::new();
    let mut i: usize = 0;
    while i < s.len()
        invariant
            i <= s@.len(),
            rest@ == s@.take(i as int),
        decreases s@.len() - i,
    {
        proof {
            assert(s@.take((i + 1) as int) =~= s@.take(i as int).push(s@[i as int]));
        }
        rest.push(s[i]);
        i = i + 1;
    }
    proof {
        assert(s@.take(s@.len() as int) =~= s@);
    }
    loop
        invariant
            pat@.len() >= 1,
            rest@.len() <= usize::MAX,
            replace_all(s@, pat@, rep@) == out@ + replace_all(rest@, pat@, rep@),
        decreases rest@.len(),
    {
        match find_sub_at(&rest, pat) {
            None => {
                let mut k: usize = 0;
                let ghost base = out@;
                while k < rest.len()
                    invariant
                        k <= rest@.len(),
                        out@ == base + rest@.take(k as int),
                    decreases rest@.len() - k,
                {
                    proof {
                        assert(base + rest@.take((k + 1) as int) =~= (base + rest@.take(
                            k as int,
                        )).push(rest@[k as int]));
                    }
                    out.push(rest[k]);
                    k = k + 1;
                }
                proof {
                    assert(rest@.take(rest@.len() as int) =~= rest@);
                }
                return out;
            },
            Some(p) => {
                proof {
                    lemma_find_sub_some(rest@, pat@);
                }
                let ghost old_rest = rest@;
                let ghost base = out@;
                let mut k: usize = 0;
                while k < p
                    invariant
                        k <= p,
                        p + pat@.len() <= rest@.len(),
                        rest@.len() <= usize::MAX,
                        rest@ == old_rest,
                        out@ == base + rest@.take(k as int),
                    decreases p - k,
                {
                    proof {
                        assert(base + rest@.take((k + 1) as int) =~= (base + rest@.take(
                            k as int,
                        )).push(rest@[k as int]));
                    }
                    out.push(rest[k]);
                    k = k + 1;
                }
                let ghost base2 = out@;
                let mut k2: usize = 0;
                while k2 < rep.len()
                    invariant
                        k2 <= rep@.len(),
                        p + pat@.len() <= rest@.len(),
                        rest@.len() <= usize::MAX,
                        rest@ == old_rest,
                        out@ == base2 + rep@.take(k2 as int),
                    decreases rep@.len() - k2,
                {
                    proof {
                        assert(base2 + rep@.take((k2 + 1) as int) =~= (base2 + rep@.take(
                            k2 as int,
                        )).push(rep@[k2 as int]));
                    }
                    out.push(rep[k2]);
                    k2 = k2 + 1;
                }
                proof {
                    assert(rep@.take(rep@.len() as int) =~= rep@);
                }
                let mut tail: Vec<char> = Vec::new();
                let start = p + pat.len();
                let mut k3: usize = start;
                while k3 < rest.len()
                    invariant
                        start <= k3 <= rest@.len(),
                        rest@ == old_rest,
                        start == p + pat@.len(),
                        tail@ == rest@.subrange(start as int, k3 as int),
                    decreases rest@.len() - k3,
                {
                    proof {
                        assert(rest@.subrange(start as int, (k3 + 1) as int) =~= rest@.subrange(
                            start as int,
                            k3 as int,
                        ).push(rest@[k3 as int]));
                    }
                    tail.push(rest[k3]);
                    k3 = k3 + 1;
                }
                proof {
                    assert(tail@ =~= old_rest.skip((p + pat@.len()) as int));
                    assert(out@ =~= base + (old_rest.take(p as int) + rep@));
                    assert(base + replace_all(old_rest, pat@, rep@) =~= out@ + replace_all(
                        tail@,
                        pat@,
                        rep@,
                    ));
                }
                rest = tail;
            },
        }
    }
}

// ---------------------------------------------------------------------------
// Line-terminator handling at the edges of the core.
// ---------------------------------------------------------------------------

/// The carriage-return / line-feed pair.
pub open spec fn crlf() -> Seq<char> {
    seq!['\r', '\n']
}

/// A single line feed.
pub open spec fn lf() -> Seq<char> {
    seq!['\n']
}

/// Reports the line-terminator convention of `s`: "\r\n" when the text
/// contains that pair anywhere, "\n" otherwise.
pub fn detect_line_ending(s: &str) -> (r: &'static str)
    ensures
        r@ == if find_sub(s@, crlf()) is Some {
            crlf()
        } else {
            lf()
        },
{
    let cs = str_to_chars(s);
    let mut pat: Vec<char> = Vec::new();
    pat.push('\r');
    pat.push('\n');
    proof {
        assert(pat@ =~= crlf());
    }
    let found = find_sub_at(&cs, &pat);
    proof {
        reveal_strlit("\r\n");
        reveal_strlit("\n");
        assert(("\r\n")@ =~= crlf());
        assert(("\n")@ =~= lf());
    }
    if found.is_some() {
        "\r\n"
    } else {
        "\n"
    }
}

/// Rewrites every "\r\n" pair to a bare "\n".
pub fn normalize_to_lf(s: &str) -> (r: String)
    ensures
        r@ == replace_all(s@, crlf(), lf()),
{
    let cs = str_to_chars(s);
    let mut pat: Vec<char> = Vec::new();
    pat.push('\r');
    pat.push('\n');
    let mut rep: Vec<char> = Vec::new();
    rep.push('\n');
    proof {
        assert(pat@ =~= crlf());
        assert(rep@ =~= lf());
    }
    let out = replace_all_chars(&cs, &pat, &rep);
    chars_to_string(&out)
}

/// Rewrites every "\n" to the given terminator; a "\n" terminator leaves the
/// text as it is.
pub fn restore_line_endings(s: &str, ending: &str) -> (r: String)
    ensures
        r@ == if ending@ == lf() {
            s@
        } else {
            replace_all(s@, lf(), ending@)
        },
{
    let is_lf = ending.unicode_len() == 1 && ending.get_char(0) == '\n';
    proof {
        if is_lf {
            assert(ending@ =~= lf());
        } else {
            if ending@ == lf() {
                assert(ending@.len() == 1 && ending@[0] == '\n');
            }
        }
    }
    if is_lf {
        let cs = str_to_chars(s);
        chars_to_string(&cs)
    } else {
        let cs = str_to_chars(s);
        let mut pat: Vec<char> = Vec::new();
        pat.push('\n');
        proof {
            assert(pat@ =~= lf());
        }
        let rep = str_to_chars(ending);
        let out = replace_all_chars(&cs, &pat, &rep);
        chars_to_string(&out)
    }
}

/// The lines of a normalized file: a plain split on '\n', except that one
/// final empty segment is dropped when the text ends with '\n', so a trailing
/// terminator does not introduce an extra addressable empty line.
pub open spec fn file_lines(s: Seq<char>) -> Seq<Seq<char>> {
    if s.len() > 0 && s.last() == '\n' {
        split_char(s.drop_last(), '\n')
    } else {
        split_char(s, '\n')
    }
}

/// Splits normalized text into its lines, dropping exactly one final empty
/// segment when the text ends with '\n'.
pub fn split_preserve_last_empty(s: &str) -> (r: Vec<String>)
    ensures
        lines_view(r@) == file_lines(s@),
{
    let mut cs = str_to_chars(s);
    if cs.len() > 0 && cs[cs.len() - 1] == '\n' {
        proof {
            assert(cs@.take((cs@.len() - 1) as int) =~= cs@.drop_last());
        }
        cs.truncate(cs.len() - 1);
    }
    split_chars(&cs, '\n')
}

/// The lines of a replacement text: none when it is empty, else a plain
/// split on '\n'.
pub open spec fn dst_lines(dst: Seq<char>) -> Seq<Seq<char>> {
    if dst.len() == 0 {
        Seq::<Seq<char>>::empty()
    } else {
        split_char(dst, '\n')
    }
}

/// Splits replacement text into the lines to be spliced in; empty text
/// yields no lines at all.
pub fn split_dst_lines(dst: &str) -> (r: Vec<String>)
    ensures
        lines_view(r@) == dst_lines(dst@),
{
    if dst.unicode_len() == 0 {
        let r: Vec<String> = Vec::new();
        proof {
            assert(lines_view(r@) =~= dst_lines(dst@));
        }
        r
    } else {
        let cs = str_to_chars(dst);
        split_chars(&cs, '\n')
    }
}

} // verus!
