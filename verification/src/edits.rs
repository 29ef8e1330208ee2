use vstd::prelude::*;

use crate::anchor::{anchor_spec, parse_line_ref, LineRef};
use crate::errors::{mismatches_view, HashlineError, Mismatch, SpecError, SpecMismatch};
use crate::fingerprint::{compute_line_hash, line_fp};
use crate::text::{dst_lines, find_sub, find_sub_at, join_char, join_lines, lines_view,
    replace_all, replace_all_chars, split_char, split_chars, split_dst_lines, str_to_chars};

verus! {

// ---------------------------------------------------------------------------
// Edit operations. The first three kinds are anchor-addressed; the fourth is
// content-addressed and never touches anchors.
// ---------------------------------------------------------------------------

/// One edit operation, as decoded from a request.
#[derive(Debug)]
pub enum HashlineEdit {
    /// Replace the line at the anchor with the (possibly multi-line) text.
    SetLine { anchor: String, new_text: String },
    /// Replace the inclusive span between the two anchors with the text.
    ReplaceLines { start_anchor: String, end_anchor: String, new_text: String },
    /// Insert the text immediately after the anchored line.
    InsertAfter { anchor: String, text: String },
    /// Replace the first (or every) occurrence of a substring.
    Replace { old_text: String, new_text: String, all: bool },
}

/// An operation whose anchors have been parsed: the form the resolver and the
/// applier work on.
enum ParsedOp {
    Single { r: LineRef, dst: String },
    Range { start: LineRef, end: LineRef, dst: String },
    Insert { after: LineRef, dst: String },
    Subst { old_text: String, new_text: String, all: bool },
}

/// The mathematical form of a parsed operation.
pub enum SpecOp {
    Single { line: nat, hash: Seq<char>, dst: Seq<char> },
    Range { start: nat, start_hash: Seq<char>, end: nat, end_hash: Seq<char>, dst: Seq<char> },
    Insert { after: nat, hash: Seq<char>, dst: Seq<char> },
    Subst { old_text: Seq<char>, new_text: Seq<char>, all: bool },
}

impl View for ParsedOp {
    type V = SpecOp;

    closed spec fn view(&self) -> SpecOp {
        match self {
            ParsedOp::Single { r, dst } => SpecOp::Single {
                line: r.line as nat,
                hash: r.hash@,
                dst: dst@,
            },
            ParsedOp::Range { start, end, dst } => SpecOp::Range {
                start: start.line as nat,
                start_hash: start.hash@,
                end: end.line as nat,
                end_hash: end.hash@,
                dst: dst@,
            },
            ParsedOp::Insert { after, dst } => SpecOp::Insert {
                after: after.line as nat,
                hash: after.hash@,
                dst: dst@,
            },
            ParsedOp::Subst { old_text, new_text, all } => SpecOp::Subst {
                old_text: old_text@,
                new_text: new_text@,
                all: *all,
            },
        }
    }
}

/// The view of a list of parsed operations.
spec fn ops_view(v: Seq<ParsedOp>) -> Seq<SpecOp> {
    Seq::new(v.len(), |i: int| v[i]@)
}

// ---------------------------------------------------------------------------
// Phase 1: parsing the anchors of a batch, in declared order; the leftmost
// malformed operation aborts the batch.
// ---------------------------------------------------------------------------

/// What parsing one edit yields: its parsed operation, or the error that
/// rejects the batch.
pub open spec fn edit_to_op(e: HashlineEdit) -> Result<SpecOp, SpecError> {
    match e {
        HashlineEdit::SetLine { anchor, new_text } => match anchor_spec(anchor@) {
            Some(ah) => Ok(
                SpecOp::Single { line: ah.0 as nat, hash: ah.1, dst: new_text@ },
            ),
            None => Err(SpecError::InvalidAnchor { token: anchor@ }),
        },
        HashlineEdit::ReplaceLines { start_anchor, end_anchor, new_text } => match anchor_spec(
            start_anchor@,
        ) {
            None => Err(SpecError::InvalidAnchor { token: start_anchor@ }),
            Some(sh) => match anchor_spec(end_anchor@) {
                None => Err(SpecError::InvalidAnchor { token: end_anchor@ }),
                Some(eh) => Ok(
                    SpecOp::Range {
                        start: sh.0 as nat,
                        start_hash: sh.1,
                        end: eh.0 as nat,
                        end_hash: eh.1,
                        dst: new_text@,
                    },
                ),
            },
        },
        HashlineEdit::InsertAfter { anchor, text } => match anchor_spec(anchor@) {
            None => Err(SpecError::InvalidAnchor { token: anchor@ }),
            Some(ah) => {
                if text@.len() == 0 {
                    Err(SpecError::EmptyInsertText)
                } else {
                    Ok(SpecOp::Insert { after: ah.0 as nat, hash: ah.1, dst: text@ })
                }
            },
        },
        HashlineEdit::Replace { old_text, new_text, all } => {
            if old_text@.len() == 0 {
                Err(SpecError::EmptyOldText)
            } else {
                Ok(SpecOp::Subst { old_text: old_text@, new_text: new_text@, all })
            }
        },
    }
}

/// Parses a whole batch; the leftmost failing edit decides the error.
pub open spec fn parse_ops(edits: Seq<HashlineEdit>) -> Result<Seq<SpecOp>, SpecError>
    decreases edits.len(),
{
    if edits.len() == 0 {
        Ok(Seq::<SpecOp>::empty())
    } else {
        match parse_ops(edits.drop_last()) {
            Err(e) => Err(e),
            Ok(ops) => match edit_to_op(edits.last()) {
                Err(e) => Err(e),
                Ok(op) => Ok(ops.push(op)),
            },
        }
    }
}

// ---------------------------------------------------------------------------
// Phase 2: resolving anchors against the fingerprints of the current lines.
// ---------------------------------------------------------------------------

/// The fingerprint of every line, in order.
pub open spec fn fps_of(lines: Seq<Seq<char>>) -> Seq<Seq<char>> {
    Seq::new(lines.len(), |i: int| line_fp(lines[i]))
}

/// How many lines carry the fingerprint `h`.
pub open spec fn fp_mult(fps: Seq<Seq<char>>, h: Seq<char>) -> nat
    decreases fps.len(),
{
    if fps.len() == 0 {
        0
    } else {
        fp_mult(fps.drop_last(), h) + if fps.last() == h {
            1nat
        } else {
            0nat
        }
    }
}

/// The 1-indexed first line carrying the fingerprint `h`; 0 when none does.
pub open spec fn first_fp_line(fps: Seq<Seq<char>>, h: Seq<char>) -> nat
    decreases fps.len(),
{
    if fps.len() == 0 {
        0
    } else {
        let p = first_fp_line(fps.drop_last(), h);
        if p != 0 {
            p
        } else if fps.last() == h {
            fps.len()
        } else {
            0
        }
    }
}

pub proof fn lemma_first_fp_line(fps: Seq<Seq<char>>, h: Seq<char>)
    ensures
        (first_fp_line(fps, h) == 0) <==> (fp_mult(fps, h) == 0),
        first_fp_line(fps, h) != 0 ==> 1 <= first_fp_line(fps, h) <= fps.len() && fps[first_fp_line(
            fps,
            h,
        ) - 1] == h,
    decreases fps.len(),
{
    if fps.len() > 0 {
        lemma_first_fp_line(fps.drop_last(), h);
    }
}

/// What resolving one anchor does.
pub enum ResolveOut {
    /// The anchor names a line beyond the current bounds: always fatal.
    OutOfRange,
    /// The anchor is usable: valid in place, silently relocated, or recorded
    /// as a mismatch with its line left untouched.
    Resolved { line: nat, mismatch: Option<SpecMismatch> },
}

/// A mismatch as a (possibly empty) record list.
pub open spec fn opt_mismatch(m: Option<SpecMismatch>) -> Seq<SpecMismatch> {
    match m {
        Some(x) => seq![x],
        None => Seq::<SpecMismatch>::empty(),
    }
}

/// Resolution of one anchor against the current fingerprints: out of range is
/// fatal; a matching fingerprint validates the anchor as it stands; otherwise
/// the anchor relocates to the unique line carrying its fingerprint, when
/// there is exactly one; otherwise a mismatch is recorded.
pub open spec fn resolve_ref(line: nat, hash: Seq<char>, fps: Seq<Seq<char>>) -> ResolveOut {
    if line < 1 || line > fps.len() {
        ResolveOut::OutOfRange
    } else if fps[line - 1] == hash {
        ResolveOut::Resolved { line, mismatch: None }
    } else if fp_mult(fps, hash) == 1 {
        ResolveOut::Resolved { line: first_fp_line(fps, hash), mismatch: None }
    } else {
        ResolveOut::Resolved {
            line,
            mismatch: Some(SpecMismatch { line, expected: hash, actual: fps[line - 1] }),
        }
    }
}

/// Resolution is idempotent: an anchor that resolved without a mismatch —
/// valid in place or relocated — is, at its resolved line, valid as it
/// stands, and resolving it again returns it unchanged.
pub proof fn lemma_resolve_idempotent(line: nat, hash: Seq<char>, fps: Seq<Seq<char>>)
    ensures
        (match resolve_ref(line, hash, fps) {
            ResolveOut::Resolved { line: l2, mismatch: None } => resolve_ref(l2, hash, fps) == (
            ResolveOut::Resolved { line: l2, mismatch: None::<SpecMismatch> }),
            _ => true,
        }),
{
    lemma_first_fp_line(fps, hash);
}

/// Relocation moves an anchor only to a line that carries its fingerprint,
/// and only when that fingerprint occurs on exactly one line of the file:
/// an ambiguous fingerprint is never silently resolved to a first match.
pub proof fn lemma_relocation_requires_unique(line: nat, hash: Seq<char>, fps: Seq<Seq<char>>)
    ensures
        (match resolve_ref(line, hash, fps) {
            ResolveOut::Resolved { line: l2, mismatch: None } => l2 != line ==> fp_mult(fps, hash)
                == 1 && 1 <= l2 <= fps.len() && fps[l2 - 1] == hash,
            _ => true,
        }),
        (1 <= line <= fps.len() && fps[line - 1] != hash && fp_mult(fps, hash) != 1
            ==> resolve_ref(line, hash, fps) == (ResolveOut::Resolved {
            line,
            mismatch: Some(SpecMismatch { line, expected: hash, actual: fps[line - 1] }),
        })),
{
    lemma_first_fp_line(fps, hash);
}

/// Validates one anchor against the per-line fingerprints, relocating it when
/// its hash occurs on exactly one line; an unresolvable anchor is appended to
/// the mismatch list and the batch goes on collecting.
pub fn validate_or_relocate(
    r: &mut LineRef,
    fps: &Vec<String>,
    mismatches: &mut Vec<Mismatch>,
) -> (res: Result<(), HashlineError>)
    ensures
        ({
            let out = resolve_ref(old(r).line as nat, old(r).hash@, lines_view(fps@));
            match res {
                Ok(()) => out matches ResolveOut::Resolved { line, mismatch }
                    && final(r).line as nat == line && final(r).hash@ == old(r).hash@ && (
                mismatches_view(final(mismatches)@) == mismatches_view(old(mismatches)@)
                    + opt_mismatch(mismatch)),
                Err(e) => out is OutOfRange && e@ == (SpecError::OutOfRange {
                    line: old(r).line as nat,
                    len: fps@.len(),
                }) && final(r).line == old(r).line && final(r).hash@ == old(r).hash@
                    && final(mismatches)@ == old(mismatches)@,
            }
        }),
{
    let ghost fv = lines_view(fps@);
    let len = fps.len();
    if r.line < 1 || r.line > len {
        return Err(HashlineError::OutOfRange { line: r.line, len });
    }
    if fps[r.line - 1] == r.hash {
        proof {
            assert(mismatches_view(mismatches@) =~= mismatches_view(mismatches@) + opt_mismatch(
                None,
            ));
        }
        return Ok(());
    }
    let mut count: usize = 0;
    let mut first: usize = 0;
    let mut i: usize = 0;
    while i < len
        invariant
            i <= len,
            len == fv.len(),
            fv == lines_view(fps@),
            count <= i,
            count as nat == fp_mult(fv.take(i as int), r.hash@),
            first as nat == first_fp_line(fv.take(i as int), r.hash@),
        decreases len - i,
    {
        proof {
            assert(fv.take((i + 1) as int).drop_last() =~= fv.take(i as int));
            assert(fv.take((i + 1) as int).last() == fv[i as int]);
        }
        if fps[i] == r.hash {
            count = count + 1;
            if first == 0 {
                first = i + 1;
            }
        }
        i = i + 1;
    }
    proof {
        assert(fv.take(len as int) =~= fv);
        lemma_first_fp_line(fv, r.hash@);
    }
    if count == 1 {
        r.line = first;
        proof {
            assert(mismatches_view(mismatches@) =~= mismatches_view(mismatches@) + opt_mismatch(
                None,
            ));
        }
        return Ok(());
    }
    let m = Mismatch { line: r.line, expected: r.hash.clone(), actual: fps[r.line - 1].clone() };
    proof {
        assert(mismatches_view(mismatches@.push(m)) =~= mismatches_view(mismatches@)
            + opt_mismatch(
            Some(SpecMismatch { line: r.line as nat, expected: r.hash@, actual: fv[r.line - 1] }),
        ));
    }
    mismatches.push(m);
    Ok(())
}

/// What resolving one operation yields: the operation with its anchors
/// rewritten, plus any mismatch records, or a fatal error. A range whose
/// start ends up after its end is rejected here, before any mutation.
pub open spec fn resolve_one(op: SpecOp, fps: Seq<Seq<char>>) -> Result<
    (SpecOp, Seq<SpecMismatch>),
    SpecError,
> {
    match op {
        SpecOp::Single { line, hash, dst } => match resolve_ref(line, hash, fps) {
            ResolveOut::OutOfRange => Err(SpecError::OutOfRange { line, len: fps.len() }),
            ResolveOut::Resolved { line: l2, mismatch } => Ok(
                (SpecOp::Single { line: l2, hash, dst }, opt_mismatch(mismatch)),
            ),
        },
        SpecOp::Range { start, start_hash, end, end_hash, dst } => match resolve_ref(
            start,
            start_hash,
            fps,
        ) {
            ResolveOut::OutOfRange => Err(SpecError::OutOfRange { line: start, len: fps.len() }),
            ResolveOut::Resolved { line: s2, mismatch: m1 } => match resolve_ref(
                end,
                end_hash,
                fps,
            ) {
                ResolveOut::OutOfRange => Err(SpecError::OutOfRange { line: end, len: fps.len() }),
                ResolveOut::Resolved { line: e2, mismatch: m2 } => {
                    if s2 > e2 {
                        Err(SpecError::InvalidRange)
                    } else {
                        Ok(
                            (
                                SpecOp::Range {
                                    start: s2,
                                    start_hash,
                                    end: e2,
                                    end_hash,
                                    dst,
                                },
                                opt_mismatch(m1) + opt_mismatch(m2),
                            ),
                        )
                    }
                },
            },
        },
        SpecOp::Insert { after, hash, dst } => match resolve_ref(after, hash, fps) {
            ResolveOut::OutOfRange => Err(SpecError::OutOfRange { line: after, len: fps.len() }),
            ResolveOut::Resolved { line: a2, mismatch } => Ok(
                (SpecOp::Insert { after: a2, hash, dst }, opt_mismatch(mismatch)),
            ),
        },
        SpecOp::Subst { .. } => Ok((op, Seq::<SpecMismatch>::empty())),
    }
}

/// Resolves a whole batch in order, collecting every mismatch; the leftmost
/// fatal error aborts.
pub open spec fn resolve_ops(ops: Seq<SpecOp>, fps: Seq<Seq<char>>) -> Result<
    (Seq<SpecOp>, Seq<SpecMismatch>),
    SpecError,
>
    decreases ops.len(),
{
    if ops.len() == 0 {
        Ok((Seq::<SpecOp>::empty(), Seq::<SpecMismatch>::empty()))
    } else {
        match resolve_ops(ops.drop_last(), fps) {
            Err(e) => Err(e),
            Ok(rs) => match resolve_one(ops.last(), fps) {
                Err(e) => Err(e),
                Ok(r2) => Ok((rs.0.push(r2.0), rs.1 + r2.1)),
            },
        }
    }
}

// ---------------------------------------------------------------------------
// Phase 3: ordering. Anchor-addressed operations apply bottom-up (highest
// line first, an insertion before a same-line replacement), so a splice never
// shifts a line that a not-yet-applied operation still addresses; substring
// operations run last.
// ---------------------------------------------------------------------------

/// The sort key of an operation: line number times 16 plus a precedence.
/// Operations apply in strictly descending key order; equal keys keep their
/// declared order.
pub open spec fn op_key(op: SpecOp) -> int {
    match op {
        SpecOp::Single { line, .. } => line as int * 16,
        SpecOp::Range { end, .. } => end as int * 16,
        SpecOp::Insert { after, .. } => after as int * 16 + 1,
        SpecOp::Subst { .. } => 9,
    }
}

/// Stable insertion into a descending-sorted sequence: the element lands
/// after every element with a key at least as large.
pub open spec fn insert_desc(sorted: Seq<SpecOp>, x: SpecOp) -> Seq<SpecOp>
    decreases sorted.len(),
{
    if sorted.len() == 0 {
        seq![x]
    } else if op_key(sorted.last()) < op_key(x) {
        insert_desc(sorted.drop_last(), x).push(sorted.last())
    } else {
        sorted.push(x)
    }
}

/// Stable descending sort by `op_key`.
pub open spec fn sort_desc(ops: Seq<SpecOp>) -> Seq<SpecOp>
    decreases ops.len(),
{
    if ops.len() == 0 {
        Seq::<SpecOp>::empty()
    } else {
        insert_desc(sort_desc(ops.drop_last()), ops.last())
    }
}

// ---------------------------------------------------------------------------
// Phase 4: application, in sorted order, to the line sequence.
// ---------------------------------------------------------------------------

/// The lines with the span `[s, e)` (0-indexed) replaced by `mid`.
pub open spec fn splice_at(
    lines: Seq<Seq<char>>,
    s: int,
    e: int,
    mid: Seq<Seq<char>>,
) -> Seq<Seq<char>> {
    lines.take(s) + mid + lines.skip(e)
}

/// What applying one resolved operation to the lines yields. Bounds are
/// re-checked defensively: overlapping edits can shrink the file below a
/// line that resolution saw.
pub open spec fn apply_op(lines: Seq<Seq<char>>, op: SpecOp) -> Result<Seq<Seq<char>>, SpecError> {
    match op {
        SpecOp::Single { line, hash, dst } => {
            if line < 1 || line > lines.len() {
                Err(SpecError::OutOfRange { line, len: lines.len() })
            } else {
                Ok(splice_at(lines, line - 1, line as int, dst_lines(dst)))
            }
        },
        SpecOp::Range { start, start_hash, end, end_hash, dst } => {
            if start < 1 || start > lines.len() {
                Err(SpecError::OutOfRange { line: start, len: lines.len() })
            } else if end < 1 || end > lines.len() {
                Err(SpecError::OutOfRange { line: end, len: lines.len() })
            } else if start > end {
                Err(SpecError::InvalidRange)
            } else {
                Ok(splice_at(lines, start - 1, end as int, dst_lines(dst)))
            }
        },
        SpecOp::Insert { after, hash, dst } => {
            if after > lines.len() {
                Err(SpecError::OutOfRange { line: after, len: lines.len() })
            } else {
                Ok(splice_at(lines, after as int, after as int, dst_lines(dst)))
            }
        },
        SpecOp::Subst { old_text, new_text, all } => {
            let joined = join_char(lines, '\n');
            if all {
                Ok(split_char(replace_all(joined, old_text, new_text), '\n'))
            } else {
                match find_sub(joined, old_text) {
                    None => Err(SpecError::SubstringNotFound),
                    Some(i) => Ok(
                        split_char(
                            joined.take(i) + new_text + joined.skip(i + old_text.len()),
                            '\n',
                        ),
                    ),
                }
            }
        },
    }
}

/// Applies resolved operations left to right; the first failure aborts.
pub open spec fn apply_ops(lines: Seq<Seq<char>>, ops: Seq<SpecOp>) -> Result<
    Seq<Seq<char>>,
    SpecError,
>
    decreases ops.len(),
{
    if ops.len() == 0 {
        Ok(lines)
    } else {
        match apply_op(lines, ops[0]) {
            Err(e) => Err(e),
            Ok(l2) => apply_ops(l2, ops.skip(1)),
        }
    }
}

// ---------------------------------------------------------------------------
// The whole batch, as one atomic transformation.
// ---------------------------------------------------------------------------

/// What applying a batch to the lines yields: the unchanged lines for an
/// empty batch; otherwise parse every anchor, resolve every anchor against
/// the pre-edit fingerprints, refuse the batch if any mismatch remains, apply
/// bottom-up, and refuse a result identical to the input.
pub open spec fn apply_edits_spec(lines: Seq<Seq<char>>, edits: Seq<HashlineEdit>) -> Result<
    Seq<Seq<char>>,
    SpecError,
> {
    if edits.len() == 0 {
        Ok(lines)
    } else {
        match parse_ops(edits) {
            Err(e) => Err(e),
            Ok(ops) => match resolve_ops(ops, fps_of(lines)) {
                Err(e) => Err(e),
                Ok(rs) => {
                    if rs.1.len() > 0 {
                        Err(SpecError::StaleAnchors { mismatches: rs.1 })
                    } else {
                        match apply_ops(lines, sort_desc(rs.0)) {
                            Err(e) => Err(e),
                            Ok(out) => {
                                if out == lines {
                                    Err(SpecError::NoEffectiveChange)
                                } else {
                                    Ok(out)
                                }
                            },
                        }
                    }
                },
            },
        }
    }
}

// ---------------------------------------------------------------------------
// The executable engine.
// ---------------------------------------------------------------------------

/// A batch that fails while parsing a prefix fails as a whole, with that
/// error.
proof fn lemma_parse_ops_err(edits: Seq<HashlineEdit>, k: int)
    requires
        0 <= k <= edits.len(),
        parse_ops(edits.take(k)) is Err,
    ensures
        parse_ops(edits) == parse_ops(edits.take(k)),
    decreases edits.len() - k,
{
    if k == edits.len() {
        assert(edits.take(k) =~= edits);
    } else {
        assert(edits.take(k + 1).drop_last() =~= edits.take(k));
        lemma_parse_ops_err(edits, k + 1);
    }
}

/// A batch that fails while resolving a prefix fails as a whole, with that
/// error.
proof fn lemma_resolve_ops_err(ops: Seq<SpecOp>, fps: Seq<Seq<char>>, k: int)
    requires
        0 <= k <= ops.len(),
        resolve_ops(ops.take(k), fps) is Err,
    ensures
        resolve_ops(ops, fps) == resolve_ops(ops.take(k), fps),
    decreases ops.len() - k,
{
    if k == ops.len() {
        assert(ops.take(k) =~= ops);
    } else {
        assert(ops.take(k + 1).drop_last() =~= ops.take(k));
        lemma_resolve_ops_err(ops, fps, k + 1);
    }
}

/// Parses the anchors of one edit.
fn parse_edit(e: &HashlineEdit) -> (r: Result<ParsedOp, HashlineError>)
    ensures
        match r {
            Ok(op) => edit_to_op(*e) == Ok::<SpecOp, SpecError>(op@),
            Err(err) => edit_to_op(*e) == Err::<SpecOp, SpecError>(err@),
        },
{
    match e {
        HashlineEdit::SetLine { anchor, new_text } => match parse_line_ref(anchor.as_str()) {
            Ok(lr) => Ok(ParsedOp::Single { r: lr, dst: new_text.clone() }),
            Err(err) => Err(err),
        },
        HashlineEdit::ReplaceLines { start_anchor, end_anchor, new_text } => {
            let start = match parse_line_ref(start_anchor.as_str()) {
                Ok(lr) => lr,
                Err(err) => {
                    return Err(err);
                },
            };
            let end = match parse_line_ref(end_anchor.as_str()) {
                Ok(lr) => lr,
                Err(err) => {
                    return Err(err);
                },
            };
            Ok(ParsedOp::Range { start, end, dst: new_text.clone() })
        },
        HashlineEdit::InsertAfter { anchor, text } => {
            let after = match parse_line_ref(anchor.as_str()) {
                Ok(lr) => lr,
                Err(err) => {
                    return Err(err);
                },
            };
            if text.as_str().is_empty() {
                return Err(HashlineError::EmptyInsertText);
            }
            Ok(ParsedOp::Insert { after, dst: text.clone() })
        },
        HashlineEdit::Replace { old_text, new_text, all } => {
            if old_text.as_str().is_empty() {
                return Err(HashlineError::EmptyOldText);
            }
            Ok(
                ParsedOp::Subst {
                    old_text: old_text.clone(),
                    new_text: new_text.clone(),
                    all: *all,
                },
            )
        },
    }
}

/// Computes the fingerprint of every line.
fn build_fps(lines: &Vec<String>) -> (r: Vec<String>)
    ensures
        lines_view(r@) == fps_of(lines_view(lines@)),
{
    let mut out: Vec<String> = Vec::new();
    let mut i: usize = 0;
    while i < lines.len()
        invariant
            i <= lines@.len(),
            lines_view(out@) == fps_of(lines_view(lines@)).take(i as int),
        decreases lines@.len() - i,
    {
        let h = compute_line_hash(lines[i].as_str());
        proof {
            let fv2 = fps_of(lines_view(lines@));
            assert(lines_view(out@).len() == out@.len());
            assert(out@.len() == i);
            assert forall|k: int| 0 <= k < i + 1 implies lines_view(out@.push(h))[k] == fv2.take(
                (i + 1) as int,
            )[k] by {
                if k < i {
                    assert(lines_view(out@)[k] == fv2.take(i as int)[k]);
                } else {
                    assert(out@.push(h)[k] == h);
                }
            }
            assert(lines_view(out@.push(h)) =~= fv2.take((i + 1) as int));
        }
        out.push(h);
        i = i + 1;
    }
    proof {
        assert(fps_of(lines_view(lines@)).take(lines@.len() as int) =~= fps_of(
            lines_view(lines@),
        ));
    }
    out
}

/// Resolves every anchor of the batch against the fingerprints, collecting
/// mismatches; a fatal error aborts at once.
fn resolve_all(parsed: &Vec<ParsedOp>, fps: &Vec<String>) -> (res: Result<
    (Vec<ParsedOp>, Vec<Mismatch>),
    HashlineError,
>)
    ensures
        match res {
            Ok(p) => resolve_ops(ops_view(parsed@), lines_view(fps@)) == Ok::<
                (Seq<SpecOp>, Seq<SpecMismatch>),
                SpecError,
            >((ops_view(p.0@), mismatches_view(p.1@))),
            Err(e) => resolve_ops(ops_view(parsed@), lines_view(fps@)) == Err::<
                (Seq<SpecOp>, Seq<SpecMismatch>),
                SpecError,
            >(e@),
        },
{
    let ghost pv = ops_view(parsed@);
    let ghost fv = lines_view(fps@);
    let mut rops: Vec<ParsedOp> = Vec::new();
    let mut ms: Vec<Mismatch> = Vec::new();
    proof {
        assert(ops_view(rops@) =~= Seq::<SpecOp>::empty());
        assert(mismatches_view(ms@) =~= Seq::<SpecMismatch>::empty());
    }
    let mut i: usize = 0;
    while i < parsed.len()
        invariant
            i <= parsed@.len(),
            pv == ops_view(parsed@),
            fv == lines_view(fps@),
            resolve_ops(pv.take(i as int), fv) == Ok::<(Seq<SpecOp>, Seq<SpecMismatch>), SpecError>(
                (ops_view(rops@), mismatches_view(ms@)),
            ),
        decreases parsed@.len() - i,
    {
        proof {
            assert(pv.take((i + 1) as int).drop_last() =~= pv.take(i as int));
            assert(pv.take((i + 1) as int).last() == pv[i as int]);
        }
        let ghost ms0 = mismatches_view(ms@);
        match &parsed[i] {
            ParsedOp::Single { r, dst } => {
                let mut lr = LineRef { line: r.line, hash: r.hash.clone() };
                match validate_or_relocate(&mut lr, fps, &mut ms) {
                    Ok(()) => {
                        let newop = ParsedOp::Single { r: lr, dst: dst.clone() };
                        proof {
                            assert(ops_view(rops@.push(newop)) =~= ops_view(rops@).push(newop@));
                        }
                        rops.push(newop);
                    },
                    Err(e) => {
                        proof {
                            lemma_resolve_ops_err(pv, fv, i + 1);
                        }
                        return Err(e);
                    },
                }
            },
            ParsedOp::Range { start, end, dst } => {
                let mut s2 = LineRef { line: start.line, hash: start.hash.clone() };
                match validate_or_relocate(&mut s2, fps, &mut ms) {
                    Ok(()) => {},
                    Err(e) => {
                        proof {
                            lemma_resolve_ops_err(pv, fv, i + 1);
                        }
                        return Err(e);
                    },
                }
                let ghost ms1 = mismatches_view(ms@);
                let mut e2 = LineRef { line: end.line, hash: end.hash.clone() };
                match validate_or_relocate(&mut e2, fps, &mut ms) {
                    Ok(()) => {},
                    Err(e) => {
                        proof {
                            lemma_resolve_ops_err(pv, fv, i + 1);
                        }
                        return Err(e);
                    },
                }
                if s2.line > e2.line {
                    proof {
                        lemma_resolve_ops_err(pv, fv, i + 1);
                    }
                    return Err(HashlineError::InvalidRange);
                }
                let newop = ParsedOp::Range { start: s2, end: e2, dst: dst.clone() };
                proof {
                    assert(ops_view(rops@.push(newop)) =~= ops_view(rops@).push(newop@));
                    match resolve_ref(start.line as nat, start.hash@, fv) {
                        ResolveOut::Resolved { line: _, mismatch: m1 } => {
                            match resolve_ref(end.line as nat, end.hash@, fv) {
                                ResolveOut::Resolved { line: _, mismatch: m2 } => {
                                    assert(mismatches_view(ms@) =~= ms0 + (opt_mismatch(m1)
                                        + opt_mismatch(m2)));
                                },
                                _ => {},
                            }
                        },
                        _ => {},
                    }
                }
                rops.push(newop);
            },
            ParsedOp::Insert { after, dst } => {
                let mut lr = LineRef { line: after.line, hash: after.hash.clone() };
                match validate_or_relocate(&mut lr, fps, &mut ms) {
                    Ok(()) => {
                        let newop = ParsedOp::Insert { after: lr, dst: dst.clone() };
                        proof {
                            assert(ops_view(rops@.push(newop)) =~= ops_view(rops@).push(newop@));
                        }
                        rops.push(newop);
                    },
                    Err(e) => {
                        proof {
                            lemma_resolve_ops_err(pv, fv, i + 1);
                        }
                        return Err(e);
                    },
                }
            },
            ParsedOp::Subst { old_text, new_text, all } => {
                let newop = ParsedOp::Subst {
                    old_text: old_text.clone(),
                    new_text: new_text.clone(),
                    all: *all,
                };
                proof {
                    assert(ops_view(rops@.push(newop)) =~= ops_view(rops@).push(newop@));
                    assert(mismatches_view(ms@) =~= ms0 + Seq::<SpecMismatch>::empty());
                }
                rops.push(newop);
            },
        }
        i = i + 1;
    }
    proof {
        assert(pv.take(parsed@.len() as int) =~= pv);
    }
    Ok((rops, ms))
}

/// The line and precedence parts of an operation's sort key.
fn op_parts(op: &ParsedOp) -> (k: (usize, usize))
    ensures
        op_key(op@) == k.0 as int * 16 + k.1 as int,
        k.1 <= 9,
{
    match op {
        ParsedOp::Single { r, .. } => (r.line, 0),
        ParsedOp::Range { end, .. } => (end.line, 0),
        ParsedOp::Insert { after, .. } => (after.line, 1),
        ParsedOp::Subst { .. } => (0, 9),
    }
}

/// Whether `a` sorts strictly below `b`.
fn key_less(a: &ParsedOp, b: &ParsedOp) -> (r: bool)
    ensures
        r == (op_key(a@) < op_key(b@)),
{
    let pa = op_parts(a);
    let pb = op_parts(b);
    proof {
        if pa.0 < pb.0 {
            assert((pa.0 as int * 16 + pa.1 as int) < (pb.0 as int * 16 + pb.1 as int));
        }
        if pa.0 > pb.0 {
            assert((pa.0 as int * 16 + pa.1 as int) > (pb.0 as int * 16 + pb.1 as int));
        }
    }
    pa.0 < pb.0 || (pa.0 == pb.0 && pa.1 < pb.1)
}

/// Where stable descending insertion puts an element: after every element
/// with a key at least as large, before the rest.
proof fn lemma_insert_desc_position(a: Seq<SpecOp>, x: SpecOp, j: int)
    requires
        0 <= j <= a.len(),
        forall|k: int| j <= k < a.len() ==> op_key(#[trigger] a[k]) < op_key(x),
        j > 0 ==> op_key(a[j - 1]) >= op_key(x),
    ensures
        insert_desc(a, x) == a.take(j) + seq![x] + a.skip(j),
    decreases a.len(),
{
    if j == a.len() {
        assert(insert_desc(a, x) =~= a.take(j) + seq![x] + a.skip(j));
    } else {
        assert(op_key(a.last()) < op_key(x));
        lemma_insert_desc_position(a.drop_last(), x, j);
        assert((a.drop_last().take(j) + seq![x] + a.drop_last().skip(j)).push(a.last()) =~= a.take(
            j,
        ) + seq![x] + a.skip(j));
    }
}

/// Sorts the operations bottom-up: descending line, an insertion before a
/// same-line replacement, substring operations last; ties keep declared
/// order.
fn sort_ops(v: Vec<ParsedOp>) -> (r: Vec<ParsedOp>)
    ensures
        ops_view(r@) == sort_desc(ops_view(v@)),
{
    let ghost orig = v@;
    let mut v = v;
    if v.len() == 0 {
        proof {
            assert(ops_view(v@) =~= Seq::<SpecOp>::empty());
        }
        return v;
    }
    proof {
        assert(ops_view(orig.take(1)).drop_last() =~= ops_view(orig.take(0)));
        assert(sort_desc(ops_view(orig.take(0))) =~= Seq::<SpecOp>::empty());
        assert(insert_desc(Seq::<SpecOp>::empty(), ops_view(orig.take(1)).last()) =~= seq![
            orig[0]@,
        ]);
        assert(ops_view(v@.take(1)) =~= seq![orig[0]@]);
        assert(sort_desc(ops_view(orig.take(1))) == insert_desc(
            sort_desc(ops_view(orig.take(1)).drop_last()),
            ops_view(orig.take(1)).last(),
        ));
        assert(ops_view(orig.take(1)).last() == orig[0]@);
        assert(v@.skip(1) =~= orig.skip(1));
    }
    let mut i: usize = 1;
    while i < v.len()
        invariant
            1 <= i <= v@.len(),
            v@.len() == orig.len(),
            ops_view(v@.take(i as int)) == sort_desc(ops_view(orig.take(i as int))),
            v@.skip(i as int) == orig.skip(i as int),
        decreases v@.len() - i,
    {
        let mut j: usize = i;
        while j > 0 && key_less(&v[j - 1], &v[i])
            invariant
                j <= i < v@.len(),
                forall|k: int| j <= k < i ==> op_key(#[trigger] v@[k]@) < op_key(v@[i as int]@),
            decreases j,
        {
            j = j - 1;
        }
        let ghost before = v@;
        let ghost a = ops_view(before.take(i as int));
        let ghost xg = before[i as int]@;
        proof {
            assert(before[i as int] == orig[i as int]) by {
                assert(before.skip(i as int)[0] == orig.skip(i as int)[0]);
            }
            assert forall|k: int| j <= k < a.len() implies op_key(#[trigger] a[k]) < op_key(xg) by {
                assert(a[k] == before[k]@);
            }
            if j > 0 {
                assert(a[j - 1] == before[j - 1]@);
            }
            lemma_insert_desc_position(a, xg, j as int);
        }
        let x = v.remove(i);
        v.insert(j, x);
        proof {
            let after = v@;
            assert(after =~= before.take(i as int).take(j as int) + seq![before[i as int]]
                + before.take(i as int).skip(j as int) + before.skip(i as int + 1)) by {
                assert(before.remove(i as int) =~= before.take(i as int) + before.skip(
                    i as int + 1,
                ));
                assert(after =~= before.remove(i as int).insert(j as int, before[i as int]));
            }
            assert(ops_view(after.take((i + 1) as int)) =~= a.take(j as int) + seq![xg] + a.skip(
                j as int,
            )) by {
                assert forall|k: int| 0 <= k < i + 1 implies #[trigger] ops_view(
                    after.take((i + 1) as int),
                )[k] == (a.take(j as int) + seq![xg] + a.skip(j as int))[k] by {
                    if k < j {
                        assert(after[k] == before.take(i as int)[k]);
                    } else if k == j {
                        assert(after[k] == before[i as int]);
                    } else {
                        assert(after[k] == before.take(i as int)[k - 1]);
                    }
                }
            }
            assert(ops_view(orig.take((i + 1) as int)).drop_last() =~= ops_view(
                orig.take(i as int),
            ));
            assert(ops_view(orig.take((i + 1) as int)).last() == orig[i as int]@);
            assert(sort_desc(ops_view(orig.take((i + 1) as int))) == insert_desc(
                sort_desc(ops_view(orig.take(i as int))),
                orig[i as int]@,
            ));
            assert(ops_view(after.take((i + 1) as int)) == insert_desc(a, xg));
            assert(after.skip((i + 1) as int) =~= orig.skip((i + 1) as int)) by {
                assert forall|k: int| 0 <= k < after.len() - i - 1 implies #[trigger] after.skip(
                    (i + 1) as int,
                )[k] == orig.skip((i + 1) as int)[k] by {
                    assert(after[k + i + 1] == before.skip(i as int + 1)[k]);
                    assert(before.skip(i as int)[k + 1] == orig.skip(i as int)[k + 1]);
                }
            }
        }
        i = i + 1;
    }
    proof {
        assert(v@.take(v@.len() as int) =~= v@);
        assert(orig.take(orig.len() as int) =~= orig);
    }
    v
}

/// Appends clones of `src[from..to]`.
fn clone_push_range(out: &mut Vec<String>, src: &Vec<String>, from: usize, to: usize)
    requires
        from <= to <= src@.len(),
    ensures
        lines_view(final(out)@) == lines_view(old(out)@) + lines_view(src@).subrange(
            from as int,
            to as int,
        ),
{
    let ghost base = out@;
    let mut k: usize = from;
    while k < to
        invariant
            from <= k <= to <= src@.len(),
            lines_view(out@) == lines_view(base) + lines_view(src@).subrange(
                from as int,
                k as int,
            ),
        decreases to - k,
    {
        let s = src[k].clone();
        proof {
            let sv2 = lines_view(src@);
            assert(sv2.subrange(from as int, (k + 1) as int) =~= sv2.subrange(
                from as int,
                k as int,
            ).push(sv2[k as int]));
            assert(lines_view(out@.push(s)) =~= lines_view(out@).push(s@));
            assert(lines_view(base) + sv2.subrange(from as int, k as int).push(sv2[k as int]) =~= (
            lines_view(base) + sv2.subrange(from as int, k as int)).push(sv2[k as int]));
        }
        out.push(s);
        k = k + 1;
    }
}

/// A copy of the lines with the 0-indexed span `[s, e)` replaced by `mid`.
fn splice_lines(cur: &Vec<String>, s: usize, e: usize, mid: &Vec<String>) -> (r: Vec<String>)
    requires
        s <= e <= cur@.len(),
    ensures
        lines_view(r@) == splice_at(lines_view(cur@), s as int, e as int, lines_view(mid@)),
{
    let mut out: Vec<String> = Vec::new();
    proof {
        assert(lines_view(out@) =~= Seq::<Seq<char>>::empty());
    }
    clone_push_range(&mut out, cur, 0, s);
    clone_push_range(&mut out, mid, 0, mid.len());
    clone_push_range(&mut out, cur, e, cur.len());
    proof {
        assert(lines_view(mid@).subrange(0, mid@.len() as int) =~= lines_view(mid@));
        assert(lines_view(cur@).subrange(0, s as int) =~= lines_view(cur@).take(s as int));
        assert(lines_view(cur@).subrange(e as int, cur@.len() as int) =~= lines_view(cur@).skip(
            e as int,
        ));
        assert(lines_view(out@) =~= splice_at(
            lines_view(cur@),
            s as int,
            e as int,
            lines_view(mid@),
        ));
    }
    out
}

/// `s` with the occurrence of length `plen` at position `p` replaced by
/// `rep`.
fn replace_first_chars(s: &Vec<char>, p: usize, plen: usize, rep: &Vec<char>) -> (r: Vec<char>)
    requires
        p + plen <= s@.len(),
    ensures
        r@ == s@.take(p as int) + rep@ + s@.skip((p + plen) as int),
{
    let n = s.len();
    let mut out: Vec<char> = Vec::new();
    let mut k: usize = 0;
    while k < p
        invariant
            k <= p,
            n == s@.len(),
            p + plen <= s@.len(),
            out@ == s@.take(k as int),
        decreases p - k,
    {
        proof {
            assert(s@.take((k + 1) as int) =~= s@.take(k as int).push(s@[k as int]));
        }
        out.push(s[k]);
        k = k + 1;
    }
    let ghost base = out@;
    let mut k2: usize = 0;
    while k2 < rep.len()
        invariant
            k2 <= rep@.len(),
            n == s@.len(),
            p + plen <= s@.len(),
            out@ == base + rep@.take(k2 as int),
        decreases rep@.len() - k2,
    {
        proof {
            assert(base + rep@.take((k2 + 1) as int) =~= (base + rep@.take(k2 as int)).push(
                rep@[k2 as int],
            ));
        }
        out.push(rep[k2]);
        k2 = k2 + 1;
    }
    proof {
        assert(base + rep@.take(rep@.len() as int) =~= base + rep@);
    }
    let ghost base2 = out@;
    let start = p + plen;
    let mut k3: usize = start;
    while k3 < s.len()
        invariant
            start <= k3 <= s@.len(),
            start == p + plen,
            out@ == base2 + s@.subrange(start as int, k3 as int),
        decreases s@.len() - k3,
    {
        proof {
            assert(base2 + s@.subrange(start as int, (k3 + 1) as int) =~= (base2 + s@.subrange(
                start as int,
                k3 as int,
            )).push(s@[k3 as int]));
        }
        out.push(s[k3]);
        k3 = k3 + 1;
    }
    proof {
        assert(s@.subrange(start as int, s@.len() as int) =~= s@.skip(start as int));
        assert(out@ =~= s@.take(p as int) + rep@ + s@.skip((p + plen) as int));
    }
    out
}

/// Applies one resolved operation to a copy of the lines.
fn apply_one(cur: &Vec<String>, op: &ParsedOp) -> (res: Result<Vec<String>, HashlineError>)
    ensures
        match res {
            Ok(out) => apply_op(lines_view(cur@), op@) == Ok::<Seq<Seq<char>>, SpecError>(
                lines_view(out@),
            ),
            Err(e) => apply_op(lines_view(cur@), op@) == Err::<Seq<Seq<char>>, SpecError>(e@),
        },
{
    match op {
        ParsedOp::Single { r, dst } => {
            if r.line < 1 || r.line > cur.len() {
                return Err(HashlineError::OutOfRange { line: r.line, len: cur.len() });
            }
            let mid = split_dst_lines(dst.as_str());
            Ok(splice_lines(cur, r.line - 1, r.line, &mid))
        },
        ParsedOp::Range { start, end, dst } => {
            if start.line < 1 || start.line > cur.len() {
                return Err(HashlineError::OutOfRange { line: start.line, len: cur.len() });
            }
            if end.line < 1 || end.line > cur.len() {
                return Err(HashlineError::OutOfRange { line: end.line, len: cur.len() });
            }
            if start.line > end.line {
                return Err(HashlineError::InvalidRange);
            }
            let mid = split_dst_lines(dst.as_str());
            Ok(splice_lines(cur, start.line - 1, end.line, &mid))
        },
        ParsedOp::Insert { after, dst } => {
            if after.line > cur.len() {
                return Err(HashlineError::OutOfRange { line: after.line, len: cur.len() });
            }
            let mid = split_dst_lines(dst.as_str());
            Ok(splice_lines(cur, after.line, after.line, &mid))
        },
        ParsedOp::Subst { old_text, new_text, all } => {
            let joined = join_lines(cur, '\n');
            let pat = str_to_chars(old_text.as_str());
            let rep = str_to_chars(new_text.as_str());
            if *all {
                if pat.len() == 0 {
                    return Ok(split_chars(&joined, '\n'));
                }
                let rp = replace_all_chars(&joined, &pat, &rep);
                Ok(split_chars(&rp, '\n'))
            } else {
                match find_sub_at(&joined, &pat) {
                    None => Err(HashlineError::SubstringNotFound),
                    Some(p) => {
                        proof {
                            crate::text::lemma_find_sub_some(joined@, pat@);
                        }
                        let rp = replace_first_chars(&joined, p, pat.len(), &rep);
                        Ok(split_chars(&rp, '\n'))
                    },
                }
            }
        },
    }
}

/// Whether two line sequences hold the same text.
fn lines_eq(a: &Vec<String>, b: &Vec<String>) -> (r: bool)
    ensures
        r == (lines_view(a@) == lines_view(b@)),
{
    if a.len() != b.len() {
        proof {
            assert(lines_view(a@).len() != lines_view(b@).len());
        }
        return false;
    }
    let mut i: usize = 0;
    while i < a.len()
        invariant
            i <= a@.len(),
            a@.len() == b@.len(),
            forall|k: int| 0 <= k < i ==> lines_view(a@)[k] == lines_view(b@)[k],
        decreases a@.len() - i,
    {
        if a[i] != b[i] {
            proof {
                assert(lines_view(a@)[i as int] != lines_view(b@)[i as int]);
            }
            return false;
        }
        i = i + 1;
    }
    proof {
        assert(lines_view(a@) =~= lines_view(b@));
    }
    true
}

/// A copy of the lines.
fn clone_lines(v: &Vec<String>) -> (r: Vec<String>)
    ensures
        lines_view(r@) == lines_view(v@),
{
    let mut out: Vec<String> = Vec::new();
    proof {
        assert(lines_view(out@) =~= Seq::<Seq<char>>::empty());
        assert(lines_view(v@).subrange(0, 0) =~= Seq::<Seq<char>>::empty());
    }
    clone_push_range(&mut out, v, 0, v.len());
    proof {
        assert(lines_view(v@).subrange(0, v@.len() as int) =~= lines_view(v@));
        assert(lines_view(out@) =~= lines_view(v@));
    }
    out
}

/// Applies a batch of edits to the lines as one atomic transformation:
/// either every anchor parses and resolves and the whole batch transforms the
/// lines, or an error reports why and nothing is changed. An empty batch is a
/// no-op; a non-empty batch whose outcome equals its input is refused.
pub fn apply_hashline_edits(lines: Vec<String>, edits: &Vec<HashlineEdit>) -> (res: Result<
    Vec<String>,
    HashlineError,
>)
    ensures
        (match res {
            Ok(out) => apply_edits_spec(lines_view(lines@), edits@) == Ok::<
                Seq<Seq<char>>,
                SpecError,
            >(lines_view(out@)),
            Err(e) => apply_edits_spec(lines_view(lines@), edits@) == Err::<
                Seq<Seq<char>>,
                SpecError,
            >(e@),
        }),
        (match res {
            Ok(out) => (edits@.len() > 0 ==> lines_view(out@) != lines_view(lines@)) && (
            edits@.len() == 0 ==> lines_view(out@) == lines_view(lines@)),
            Err(_) => true,
        }),
{
    let ghost l0 = lines_view(lines@);
    if edits.len() == 0 {
        return Ok(lines);
    }
    let snapshot = clone_lines(&lines);
    let fps = build_fps(&lines);
    let mut parsed: Vec<ParsedOp> = Vec::new();
    proof {
        assert(ops_view(parsed@) =~= Seq::<SpecOp>::empty());
        assert(parse_ops(edits@.take(0)) == Ok::<Seq<SpecOp>, SpecError>(Seq::<SpecOp>::empty()));
    }
    let mut idx: usize = 0;
    while idx < edits.len()
        invariant
            idx <= edits@.len(),
            parse_ops(edits@.take(idx as int)) == Ok::<Seq<SpecOp>, SpecError>(ops_view(parsed@)),
        decreases edits@.len() - idx,
    {
        proof {
            assert(edits@.take((idx + 1) as int).drop_last() =~= edits@.take(idx as int));
            assert(edits@.take((idx + 1) as int).last() == edits@[idx as int]);
        }
        match parse_edit(&edits[idx]) {
            Ok(op) => {
                proof {
                    assert(ops_view(parsed@.push(op)) =~= ops_view(parsed@).push(op@));
                }
                parsed.push(op);
            },
            Err(e) => {
                proof {
                    lemma_parse_ops_err(edits@, idx + 1);
                }
                return Err(e);
            },
        }
        idx = idx + 1;
    }
    proof {
        assert(edits@.take(edits@.len() as int) =~= edits@);
    }
    let (resolved, mismatches) = match resolve_all(&parsed, &fps) {
        Ok(p) => p,
        Err(e) => {
            return Err(e);
        },
    };
    if mismatches.len() > 0 {
        proof {
            assert(mismatches_view(mismatches@).len() > 0);
        }
        return Err(HashlineError::StaleAnchors { mismatches });
    }
    proof {
        assert(mismatches_view(mismatches@) =~= Seq::<SpecMismatch>::empty());
    }
    let ghost pv0 = ops_view(parsed@);
    let ghost rv0 = ops_view(resolved@);
    let sorted = sort_ops(resolved);
    let ghost sv = sort_desc(rv0);
    let mut cur = lines;
    proof {
        assert(sv.skip(0) =~= sv);
    }
    let mut k: usize = 0;
    while k < sorted.len()
        invariant
            k <= sorted@.len(),
            edits@.len() > 0,
            l0 == lines_view(lines@),
            parse_ops(edits@) == Ok::<Seq<SpecOp>, SpecError>(pv0),
            resolve_ops(pv0, fps_of(l0)) == Ok::<(Seq<SpecOp>, Seq<SpecMismatch>), SpecError>(
                (rv0, Seq::<SpecMismatch>::empty()),
            ),
            sv == sort_desc(rv0),
            sv == ops_view(sorted@),
            lines_view(snapshot@) == l0,
            apply_ops(l0, sv) == apply_ops(lines_view(cur@), sv.skip(k as int)),
        decreases sorted@.len() - k,
    {
        proof {
            assert(sv.skip(k as int)[0] == sv[k as int]);
            assert(sv.skip(k as int).skip(1) =~= sv.skip((k + 1) as int));
            assert(sv.skip(k as int).len() > 0);
        }
        match apply_one(&cur, &sorted[k]) {
            Ok(next) => {
                cur = next;
            },
            Err(e) => {
                return Err(e);
            },
        }
        k = k + 1;
    }
    proof {
        assert(sv.skip(sorted@.len() as int) =~= Seq::<SpecOp>::empty());
    }
    if lines_eq(&cur, &snapshot) {
        return Err(HashlineError::NoEffectiveChange);
    }
    Ok(cur)
}

// ---------------------------------------------------------------------------
// Batch-level laws.
// ---------------------------------------------------------------------------

/// A non-empty batch never returns its input unchanged: a batch whose outcome
/// would equal the input is refused.
pub proof fn lemma_no_silent_noop(lines: Seq<Seq<char>>, edits: Seq<HashlineEdit>)
    requires
        edits.len() > 0,
    ensures
        apply_edits_spec(lines, edits) != Ok::<Seq<Seq<char>>, SpecError>(lines),
{
}

/// What one edit contributes to a batch when nothing about it is stale: its
/// resolved operation, with no mismatch records.
pub open spec fn cleanly_resolved(lines: Seq<Seq<char>>, e: HashlineEdit) -> Option<SpecOp> {
    match edit_to_op(e) {
        Err(_) => None,
        Ok(op) => match resolve_one(op, fps_of(lines)) {
            Err(_) => None,
            Ok(rm) => if rm.1.len() == 0 {
                Some(rm.0)
            } else {
                None
            },
        },
    }
}

/// Two cleanly resolving edits with distinct sort keys give the same batch
/// outcome in either declared order: the bottom-up ordering, not the declared
/// order, decides what is applied first.
pub proof fn lemma_declared_order_irrelevant(
    lines: Seq<Seq<char>>,
    e1: HashlineEdit,
    e2: HashlineEdit,
)
    requires
        cleanly_resolved(lines, e1) is Some,
        cleanly_resolved(lines, e2) is Some,
        op_key(cleanly_resolved(lines, e1)->Some_0) != op_key(cleanly_resolved(lines, e2)->Some_0),
    ensures
        apply_edits_spec(lines, seq![e1, e2]) == apply_edits_spec(lines, seq![e2, e1]),
{
    let r1 = cleanly_resolved(lines, e1)->Some_0;
    let r2 = cleanly_resolved(lines, e2)->Some_0;
    lemma_two_ops_pipeline(lines, e1, e2);
    lemma_two_ops_pipeline(lines, e2, e1);
    assert(sort_desc(seq![r1, r2]) =~= sort_desc(seq![r2, r1])) by {
        lemma_sort_two(r1, r2);
        lemma_sort_two(r2, r1);
    }
}

/// The pipeline of a two-edit batch whose edits resolve cleanly: it applies
/// the two resolved operations in sorted order.
proof fn lemma_two_ops_pipeline(lines: Seq<Seq<char>>, e1: HashlineEdit, e2: HashlineEdit)
    requires
        cleanly_resolved(lines, e1) is Some,
        cleanly_resolved(lines, e2) is Some,
    ensures
        ({
            let r1 = cleanly_resolved(lines, e1)->Some_0;
            let r2 = cleanly_resolved(lines, e2)->Some_0;
            apply_edits_spec(lines, seq![e1, e2]) == (match apply_ops(
                lines,
                sort_desc(seq![r1, r2]),
            ) {
                Err(e) => Err(e),
                Ok(out) => if out == lines {
                    Err(SpecError::NoEffectiveChange)
                } else {
                    Ok(out)
                },
            })
        }),
{
    reveal_with_fuel(parse_ops, 3);
    reveal_with_fuel(resolve_ops, 3);
    let es = seq![e1, e2];
    let r1 = cleanly_resolved(lines, e1)->Some_0;
    let r2 = cleanly_resolved(lines, e2)->Some_0;
    let o1 = edit_to_op(e1)->Ok_0;
    let o2 = edit_to_op(e2)->Ok_0;
    assert(es.drop_last() =~= seq![e1]);
    assert(seq![e1].drop_last() =~= Seq::<HashlineEdit>::empty());
    assert(parse_ops(seq![e1]) == Ok::<Seq<SpecOp>, SpecError>(
        Seq::<SpecOp>::empty().push(o1),
    ));
    assert(parse_ops(es) == Ok::<Seq<SpecOp>, SpecError>(
        Seq::<SpecOp>::empty().push(o1).push(o2),
    ));
    let ops = Seq::<SpecOp>::empty().push(o1).push(o2);
    assert(ops.drop_last() =~= seq![o1]);
    assert(seq![o1].drop_last() =~= Seq::<SpecOp>::empty());
    assert(ops.last() == o2);
    let m1 = resolve_one(o1, fps_of(lines))->Ok_0;
    let m2 = resolve_one(o2, fps_of(lines))->Ok_0;
    assert(resolve_ops(seq![o1], fps_of(lines)) == Ok::<(Seq<SpecOp>, Seq<SpecMismatch>), SpecError>(
        (Seq::<SpecOp>::empty().push(m1.0), Seq::<SpecMismatch>::empty() + m1.1),
    ));
    assert(Seq::<SpecMismatch>::empty() + m1.1 =~= m1.1);
    assert((Seq::<SpecMismatch>::empty() + m1.1) + m2.1 =~= Seq::<SpecMismatch>::empty());
    assert(Seq::<SpecOp>::empty().push(m1.0).push(m2.0) =~= seq![r1, r2]);
}

/// Sorting a two-element sequence puts the larger key first.
proof fn lemma_sort_two(x: SpecOp, y: SpecOp)
    requires
        op_key(x) != op_key(y),
    ensures
        sort_desc(seq![x, y]) == if op_key(x) >= op_key(y) {
            seq![x, y]
        } else {
            seq![y, x]
        },
{
    reveal_with_fuel(sort_desc, 3);
    reveal_with_fuel(insert_desc, 3);
    let s = seq![x, y];
    assert(s.drop_last() =~= seq![x]);
    assert(seq![x].drop_last() =~= Seq::<SpecOp>::empty());
    assert(sort_desc(seq![x]) =~= seq![x]);
    assert(seq![x].last() == x);
    if op_key(x) < op_key(y) {
        assert(insert_desc(seq![x], y) =~= insert_desc(Seq::<SpecOp>::empty(), y).push(x));
        assert(insert_desc(seq![x], y) =~= seq![y, x]);
    } else {
        assert(insert_desc(seq![x], y) =~= seq![x].push(y));
    }
}

} // verus!
