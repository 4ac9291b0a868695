//! Locating import string literals in source text, and applying a batch
//! of in-place replacements.
//!
//! The text is scanned once, byte by byte, by a small state machine that
//! understands line comments, block comments and quoted string literals.
//! A literal counts as an import literal when the word just before its
//! opening quote, across whitespace, is `import` or `from`. Scanning
//! fails on an unterminated literal (a newline or the end of the text
//! before the closing quote) and on an unterminated block comment.
//!
//! Replacements are computed once against the original byte ranges and
//! applied left to right in one pass, so no edit can invalidate the range
//! of a later one; every byte outside the replaced ranges is kept
//! identical.
use vstd::prelude::*;

use crate::path_alg::slash;
use crate::path_alg::subvec;

verus! {

/// The byte value of `*`.
pub open spec fn star() -> u8 {
    42
}

/// The byte value of a line feed.
pub open spec fn newline() -> u8 {
    10
}

/// Whether `b` opens or closes a string literal.
pub open spec fn is_quote(b: u8) -> bool {
    b == 39 || b == 34
}

/// Whether `b` is whitespace between a keyword and a quote.
pub open spec fn is_ws(b: u8) -> bool {
    b == 32 || b == 9 || b == 13 || b == 10
}

/// Whether `b` may occur in an identifier, so that `xfrom` is not taken
/// for the keyword `from`.
pub open spec fn is_ident_byte(b: u8) -> bool {
    (48 <= b && b <= 57) || (65 <= b && b <= 90) || (97 <= b && b <= 122) || b == 95 || b == 36
}

/// The keyword `from`.
pub open spec fn kw_from() -> Seq<u8> {
    seq![102u8, 114u8, 111u8, 109u8]
}

/// The keyword `import`.
pub open spec fn kw_import() -> Seq<u8> {
    seq![105u8, 109u8, 112u8, 111u8, 114u8, 116u8]
}

/// The position reached from `i` by stepping left over whitespace.
pub open spec fn skip_ws_back(t: Seq<u8>, i: int) -> int
    decreases i,
{
    if i <= 0 {
        0
    } else if is_ws(t[i - 1]) {
        skip_ws_back(t, i - 1)
    } else {
        i
    }
}

/// Whether the word ending at position `p` is the keyword `from`.
pub open spec fn kw_from_at(t: Seq<u8>, p: int) -> bool {
    p >= 4 && p <= t.len() && t.subrange(p - 4, p) == kw_from() && (p == 4 || !is_ident_byte(
        t[p - 5],
    ))
}

/// Whether the word ending at position `p` is the keyword `import`.
pub open spec fn kw_import_at(t: Seq<u8>, p: int) -> bool {
    p >= 6 && p <= t.len() && t.subrange(p - 6, p) == kw_import() && (p == 6 || !is_ident_byte(
        t[p - 7],
    ))
}

/// Whether the quote at position `qi` opens an import literal: the word
/// before it, across whitespace, is `import` or `from`.
pub open spec fn is_import_pos(t: Seq<u8>, qi: int) -> bool {
    kw_from_at(t, skip_ws_back(t, qi)) || kw_import_at(t, skip_ws_back(t, qi))
}

/// A located string literal or replacement: the byte range between the
/// quotes, and the bytes standing (or to stand) there.
pub struct GSpan {
    pub start: int,
    pub end: int,
    pub val: Seq<u8>,
}

/// A located string literal or replacement, as built at run time.
pub struct Span {
    pub start: usize,
    pub end: usize,
    pub val: Vec<u8>,
}

/// The views of a vector of spans.
pub open spec fn spans_view(v: Seq<Span>) -> Seq<GSpan> {
    Seq::new(
        v.len(),
        |j: int|
            GSpan { start: v[j].start as int, end: v[j].end as int, val: v[j].val@ },
    )
}

/// The scanner's state: ordinary code, a line comment, a block comment,
/// or a string literal opened by `q` whose value starts at `start`.
pub enum ScanState {
    Code,
    Line,
    Block,
    Lit { q: u8, start: int },
}

/// The scanner's state as carried at run time.
#[derive(Clone, Copy)]
pub enum ScanPos {
    Code,
    Line,
    Block,
    Lit { q: u8, start: usize },
}

/// The view of a run-time scanner state.
pub open spec fn pos_view(p: ScanPos) -> ScanState {
    match p {
        ScanPos::Code => ScanState::Code,
        ScanPos::Line => ScanState::Line,
        ScanPos::Block => ScanState::Block,
        ScanPos::Lit { q, start } => ScanState::Lit { q, start: start as int },
    }
}

/// The import literals of `t` from position `i` on, the scanner standing
/// in state `st`; fails on an unterminated literal or block comment.
pub open spec fn scan_from(t: Seq<u8>, i: int, st: ScanState) -> Result<Seq<GSpan>, ()>
    decreases t.len() - i,
{
    if i < 0 || i >= t.len() {
        match st {
            ScanState::Code => Result::Ok(Seq::<GSpan>::empty()),
            ScanState::Line => Result::Ok(Seq::<GSpan>::empty()),
            ScanState::Block => Result::Err(()),
            ScanState::Lit { .. } => Result::Err(()),
        }
    } else {
        match st {
            ScanState::Code => {
                if t[i] == slash() && i + 1 < t.len() && t[i + 1] == slash() {
                    scan_from(t, i + 2, ScanState::Line)
                } else if t[i] == slash() && i + 1 < t.len() && t[i + 1] == star() {
                    scan_from(t, i + 2, ScanState::Block)
                } else if is_quote(t[i]) {
                    scan_from(t, i + 1, ScanState::Lit { q: t[i], start: i + 1 })
                } else {
                    scan_from(t, i + 1, ScanState::Code)
                }
            },
            ScanState::Line => {
                if t[i] == newline() {
                    scan_from(t, i + 1, ScanState::Code)
                } else {
                    scan_from(t, i + 1, ScanState::Line)
                }
            },
            ScanState::Block => {
                if t[i] == star() && i + 1 < t.len() && t[i + 1] == slash() {
                    scan_from(t, i + 2, ScanState::Code)
                } else {
                    scan_from(t, i + 1, ScanState::Block)
                }
            },
            ScanState::Lit { q, start } => {
                if t[i] == q {
                    match scan_from(t, i + 1, ScanState::Code) {
                        Result::Err(e) => Result::Err(e),
                        Result::Ok(rest) => {
                            if is_import_pos(t, start - 1) {
                                Result::Ok(
                                    seq![GSpan { start, end: i, val: t.subrange(start, i) }]
                                        + rest,
                                )
                            } else {
                                Result::Ok(rest)
                            }
                        },
                    }
                } else if t[i] == newline() {
                    Result::Err(())
                } else {
                    scan_from(t, i + 1, ScanState::Lit { q, start })
                }
            },
        }
    }
}

/// The import literals of the whole text, in document order.
pub open spec fn scan_text(t: Seq<u8>) -> Result<Seq<GSpan>, ()> {
    scan_from(t, 0, ScanState::Code)
}

/// The spans of `l` lie between `lo` and `len`, in strictly ascending
/// disjoint ranges.
pub open spec fn spans_sorted(l: Seq<GSpan>, lo: int, len: int) -> bool
    decreases l.len(),
{
    if l.len() == 0 {
        true
    } else {
        lo <= l[0].start && l[0].start <= l[0].end && l[0].end <= len && spans_sorted(
            l.drop_first(),
            l[0].end + 1,
            len,
        )
    }
}

/// Sortedness from a bound holds from any smaller bound.
pub proof fn lemma_sorted_weaken(l: Seq<GSpan>, lo: int, hi: int, len: int)
    requires
        lo <= hi,
        spans_sorted(l, hi, len),
    ensures
        spans_sorted(l, lo, len),
    decreases l.len(),
{
    if l.len() > 0 {
        lemma_sorted_weaken(l.drop_first(), l[0].end + 1, l[0].end + 1, len);
    }
}

/// The lower bound that the scanner's state imposes on the next span.
pub open spec fn state_lo(st: ScanState, i: int) -> int {
    match st {
        ScanState::Lit { start, .. } => start,
        _ => i,
    }
}

/// Whatever the scanner yields lies in strictly ascending disjoint ranges
/// within the text.
pub proof fn lemma_scan_sorted(t: Seq<u8>, i: int, st: ScanState)
    requires
        0 <= i <= t.len(),
        st matches ScanState::Lit { start, .. } ==> 1 <= start <= i,
        scan_from(t, i, st) is Ok,
    ensures
        spans_sorted(scan_from(t, i, st).unwrap(), state_lo(st, i), t.len() as int),
    decreases t.len() - i,
{
    if i >= t.len() {
    } else {
        match st {
            ScanState::Code => {
                if t[i] == slash() && i + 1 < t.len() && t[i + 1] == slash() {
                    lemma_scan_sorted(t, i + 2, ScanState::Line);
                    lemma_sorted_weaken(scan_from(t, i, st).unwrap(), i, i + 2, t.len() as int);
                } else if t[i] == slash() && i + 1 < t.len() && t[i + 1] == star() {
                    lemma_scan_sorted(t, i + 2, ScanState::Block);
                    lemma_sorted_weaken(scan_from(t, i, st).unwrap(), i, i + 2, t.len() as int);
                } else if is_quote(t[i]) {
                    lemma_scan_sorted(t, i + 1, ScanState::Lit { q: t[i], start: i + 1 });
                } else {
                    lemma_scan_sorted(t, i + 1, ScanState::Code);
                    lemma_sorted_weaken(scan_from(t, i, st).unwrap(), i, i + 1, t.len() as int);
                }
            },
            ScanState::Line => {
                if t[i] == newline() {
                    lemma_scan_sorted(t, i + 1, ScanState::Code);
                } else {
                    lemma_scan_sorted(t, i + 1, ScanState::Line);
                }
                lemma_sorted_weaken(scan_from(t, i, st).unwrap(), i, i + 1, t.len() as int);
            },
            ScanState::Block => {
                if t[i] == star() && i + 1 < t.len() && t[i + 1] == slash() {
                    lemma_scan_sorted(t, i + 2, ScanState::Code);
                    lemma_sorted_weaken(scan_from(t, i, st).unwrap(), i, i + 2, t.len() as int);
                } else {
                    lemma_scan_sorted(t, i + 1, ScanState::Block);
                    lemma_sorted_weaken(scan_from(t, i, st).unwrap(), i, i + 1, t.len() as int);
                }
            },
            ScanState::Lit { q, start } => {
                if t[i] == q {
                    lemma_scan_sorted(t, i + 1, ScanState::Code);
                    if is_import_pos(t, start - 1) {
                        let rest = scan_from(t, i + 1, ScanState::Code).unwrap();
                        let full = scan_from(t, i, st).unwrap();
                        assert(full.drop_first() =~= rest);
                    } else {
                        lemma_sorted_weaken(
                            scan_from(t, i, st).unwrap(),
                            start,
                            i + 1,
                            t.len() as int,
                        );
                    }
                } else if t[i] == newline() {
                } else {
                    lemma_scan_sorted(t, i + 1, ScanState::Lit { q, start });
                }
            },
        }
    }
}

/// The position reached from `i` by stepping left over whitespace.
pub fn skip_ws_back_exec(t: &Vec<u8>, i: usize) -> (r: usize)
    requires
        i <= t.len(),
    ensures
        r == skip_ws_back(t@, i as int),
        r <= i,
    decreases i,
{
    if i == 0 {
        0
    } else {
        let b = t[i - 1];
        if b == 32u8 || b == 9u8 || b == 13u8 || b == 10u8 {
            skip_ws_back_exec(t, i - 1)
        } else {
            i
        }
    }
}

/// Whether the quote at position `qi` opens an import literal.
pub fn is_import_pos_exec(t: &Vec<u8>, qi: usize) -> (r: bool)
    requires
        qi <= t.len(),
    ensures
        r == is_import_pos(t@, qi as int),
{
    let p = skip_ws_back_exec(t, qi);
    let from_here = p >= 4 && t[p - 4] == 102u8 && t[p - 3] == 114u8 && t[p - 2] == 111u8 && t[p
        - 1] == 109u8 && (p == 4 || {
        let b = t[p - 5];
        !(48u8 <= b && b <= 57u8 || 65u8 <= b && b <= 90u8 || 97u8 <= b && b <= 122u8 || b == 95u8
            || b == 36u8)
    });
    proof {
        if p >= 4 {
            if t@.subrange(p - 4, p as int) == kw_from() {
                assert(t@[p - 4] == kw_from()[0]);
                assert(t@[p - 3] == kw_from()[1]);
                assert(t@[p - 2] == kw_from()[2]);
                assert(t@[p - 1] == kw_from()[3]);
            }
            if t@[p - 4] == 102u8 && t@[p - 3] == 114u8 && t@[p - 2] == 111u8 && t@[p - 1]
                == 109u8 {
                assert(t@.subrange(p - 4, p as int) =~= kw_from());
            }
        }
        assert(from_here == kw_from_at(t@, p as int));
    }
    let import_here = p >= 6 && t[p - 6] == 105u8 && t[p - 5] == 109u8 && t[p - 4] == 112u8 && t[p
        - 3] == 111u8 && t[p - 2] == 114u8 && t[p - 1] == 116u8 && (p == 6 || {
        let b = t[p - 7];
        !(48u8 <= b && b <= 57u8 || 65u8 <= b && b <= 90u8 || 97u8 <= b && b <= 122u8 || b == 95u8
            || b == 36u8)
    });
    proof {
        if p >= 6 {
            if t@.subrange(p - 6, p as int) == kw_import() {
                assert(t@[p - 6] == kw_import()[0]);
                assert(t@[p - 5] == kw_import()[1]);
                assert(t@[p - 4] == kw_import()[2]);
                assert(t@[p - 3] == kw_import()[3]);
                assert(t@[p - 2] == kw_import()[4]);
                assert(t@[p - 1] == kw_import()[5]);
            }
            if t@[p - 6] == 105u8 && t@[p - 5] == 109u8 && t@[p - 4] == 112u8 && t@[p - 3]
                == 111u8 && t@[p - 2] == 114u8 && t@[p - 1] == 116u8 {
                assert(t@.subrange(p - 6, p as int) =~= kw_import());
            }
        }
        assert(import_here == kw_import_at(t@, p as int));
    }
    from_here || import_here
}

/// The view of a scan result.
pub open spec fn scan_res_view(r: Result<Vec<Span>, ()>) -> Result<Seq<GSpan>, ()> {
    match r {
        Result::Ok(v) => Result::Ok(spans_view(v@)),
        Result::Err(e) => Result::Err(e),
    }
}

/// Scans `t` from position `i` in state `st` for import literals.
pub fn scan_from_exec(t: &Vec<u8>, i: usize, st: ScanPos) -> (r: Result<Vec<Span>, ()>)
    requires
        i <= t.len(),
        st matches ScanPos::Lit { start, .. } ==> 1 <= start <= i,
    ensures
        scan_res_view(r) == scan_from(t@, i as int, pos_view(st)),
    decreases t.len() - i,
{
    if i >= t.len() {
        match st {
            ScanPos::Code => {
                let v: Vec<Span> = Vec::new();
                proof {
                    assert(spans_view(v@) =~= Seq::<GSpan>::empty());
                }
                Result::Ok(v)
            },
            ScanPos::Line => {
                let v: Vec<Span> = Vec::new();
                proof {
                    assert(spans_view(v@) =~= Seq::<GSpan>::empty());
                }
                Result::Ok(v)
            },
            ScanPos::Block => Result::Err(()),
            ScanPos::Lit { .. } => Result::Err(()),
        }
    } else {
        match st {
            ScanPos::Code => {
                let b = t[i];
                if b == 47u8 && i + 1 < t.len() && t[i + 1] == 47u8 {
                    scan_from_exec(t, i + 2, ScanPos::Line)
                } else if b == 47u8 && i + 1 < t.len() && t[i + 1] == 42u8 {
                    scan_from_exec(t, i + 2, ScanPos::Block)
                } else if b == 39u8 || b == 34u8 {
                    scan_from_exec(t, i + 1, ScanPos::Lit { q: b, start: i + 1 })
                } else {
                    scan_from_exec(t, i + 1, ScanPos::Code)
                }
            },
            ScanPos::Line => {
                if t[i] == 10u8 {
                    scan_from_exec(t, i + 1, ScanPos::Code)
                } else {
                    scan_from_exec(t, i + 1, ScanPos::Line)
                }
            },
            ScanPos::Block => {
                if t[i] == 42u8 && i + 1 < t.len() && t[i + 1] == 47u8 {
                    scan_from_exec(t, i + 2, ScanPos::Code)
                } else {
                    scan_from_exec(t, i + 1, ScanPos::Block)
                }
            },
            ScanPos::Lit { q, start } => {
                if t[i] == q {
                    match scan_from_exec(t, i + 1, ScanPos::Code) {
                        Result::Err(e) => Result::Err(e),
                        Result::Ok(rest) => {
                            if is_import_pos_exec(t, start - 1) {
                                let val = subvec(t, start, i);
                                let mut out = rest;
                                out.insert(0, Span { start, end: i, val });
                                proof {
                                    let g = GSpan {
                                        start: start as int,
                                        end: i as int,
                                        val: t@.subrange(start as int, i as int),
                                    };
                                    let spec_rest = scan_from(
                                        t@,
                                        i as int + 1,
                                        ScanState::Code,
                                    ).unwrap();
                                    assert(spans_view(out@) =~= seq![g] + spec_rest);
                                }
                                Result::Ok(out)
                            } else {
                                Result::Ok(rest)
                            }
                        },
                    }
                } else if t[i] == 10u8 {
                    Result::Err(())
                } else {
                    scan_from_exec(t, i + 1, ScanPos::Lit { q, start })
                }
            },
        }
    }
}

/// The import literals of `t`, in document order; fails on an
/// unterminated literal or block comment.
pub fn scan_imports(t: &Vec<u8>) -> (r: Result<Vec<Span>, ()>)
    ensures
        scan_res_view(r) == scan_text(t@),
{
    scan_from_exec(t, 0, ScanPos::Code)
}

/// The text with each span's range replaced by its value: the bytes
/// before the first range, then each replacement and the bytes between
/// ranges, unchanged, in order.
pub open spec fn apply_edits(t: Seq<u8>, es: Seq<GSpan>, from: int) -> Seq<u8>
    decreases es.len(),
{
    if es.len() == 0 {
        t.skip(from)
    } else {
        t.subrange(from, es[0].start) + es[0].val + apply_edits(t, es.drop_first(), es[0].end)
    }
}

/// Applies the edits from index `idx` on to the text from `from` on.
pub fn apply_edits_exec(t: &Vec<u8>, es: &Vec<Span>, idx: usize, from: usize) -> (r: Vec<u8>)
    requires
        from <= t.len(),
        idx <= es.len(),
        spans_sorted(spans_view(es@).skip(idx as int), from as int, t@.len() as int),
    ensures
        r@ == apply_edits(t@, spans_view(es@).skip(idx as int), from as int),
    decreases es.len() - idx,
{
    let ghost tail = spans_view(es@).skip(idx as int);
    if idx == es.len() {
        let r = subvec(t, from, t.len());
        proof {
            assert(r@ =~= apply_edits(t@, tail, from as int));
        }
        r
    } else {
        proof {
            assert(tail[0] == spans_view(es@)[idx as int]);
        }
        let e = &es[idx];
        let mut r = subvec(t, from, e.start);
        let mut mid = subvec(&e.val, 0, e.val.len());
        r.append(&mut mid);
        proof {
            assert(tail.drop_first() =~= spans_view(es@).skip(idx as int + 1));
            lemma_sorted_weaken(tail.drop_first(), tail[0].end, tail[0].end + 1, t@.len() as int);
        }
        let mut rest = apply_edits_exec(t, es, idx + 1, e.end);
        r.append(&mut rest);
        proof {
            assert(r@ =~= apply_edits(t@, tail, from as int));
        }
        r
    }
}

} // verus!
