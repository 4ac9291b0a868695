//! The rewrite itself: given a file's text and its locations before and
//! after a move, every relative import specifier in the text is rewritten
//! so that it still denotes the same module from the new location; all
//! other bytes are kept identical.
use vstd::prelude::*;

use crate::path_alg::lemma_split_slash_free;
use crate::path_alg::no_known_ext;
use crate::path_alg::parent_of;
use crate::path_alg::segs_eq;
use crate::path_alg::segs_view;
use crate::path_alg::split_bytes;
use crate::path_alg::split_from;
use crate::path_alg::subvec;
use crate::path_alg::valid_abs_path;
use crate::path_alg::wf_segs;
use crate::resolver::from_abs;
use crate::resolver::from_abs_dir;
use crate::resolver::is_relative;
use crate::resolver::is_relative_exec;
use crate::resolver::lemma_move_preserves_module;
use crate::resolver::lemma_resolve_wf;
use crate::resolver::parent_dir;
use crate::resolver::resolve_exec;
use crate::resolver::to_abs;
use crate::scanner::apply_edits;
use crate::scanner::apply_edits_exec;
use crate::scanner::lemma_scan_sorted;
use crate::scanner::scan_imports;
use crate::scanner::scan_text;
use crate::scanner::spans_sorted;
use crate::scanner::spans_view;
use crate::scanner::GSpan;
use crate::scanner::ScanState;
use crate::scanner::Span;

verus! {

/// A syntax dialect accepted for rewriting, selected by the file
/// suffix: plain or JSX-flavored. One import grammar serves both; the
/// dialect only gates which suffixes are accepted at all.
#[derive(Clone, Copy, Debug, PartialEq, Eq, Structural)]
pub enum Lang {
    TypeScript,
    TypeScriptTsx,
}

/// Why a rewrite was refused; the file system is never touched by then.
#[derive(Clone, Copy, Debug, PartialEq, Eq, Structural)]
pub enum Error {
    /// The target file name has no suffix, or one that names no known
    /// dialect.
    UnsupportedFile,
    /// The source text has an unterminated string literal or block
    /// comment.
    ParseError,
    /// A relative import ascends past the root of the path tree.
    ImportEscapesRoot,
}

/// The suffix `ts`.
pub open spec fn ts_suffix() -> Seq<u8> {
    seq![116u8, 115u8]
}

/// The suffix `tsx`.
pub open spec fn tsx_suffix() -> Seq<u8> {
    seq![116u8, 115u8, 120u8]
}

/// The position of the last occurrence of `b` in `s`, if any.
pub open spec fn rfind(s: Seq<u8>, b: u8) -> Option<int>
    decreases s.len(),
{
    if s.len() == 0 {
        Option::None
    } else if s[s.len() - 1] == b {
        Option::Some(s.len() - 1)
    } else {
        rfind(s.drop_last(), b)
    }
}

/// The final path component of `p`: everything after the last separator,
/// or all of `p` if it has none.
pub open spec fn file_name_of(p: Seq<u8>) -> Seq<u8> {
    match rfind(p, 47u8) {
        Option::None => p,
        Option::Some(k) => p.skip(k + 1),
    }
}

/// The suffix of the file name `name`: everything after its last dot,
/// provided the dot is neither absent nor the leading byte.
pub open spec fn suffix_of(name: Seq<u8>) -> Option<Seq<u8>> {
    match rfind(name, 46u8) {
        Option::None => Option::None,
        Option::Some(k) => if k == 0 {
            Option::None
        } else {
            Option::Some(name.skip(k + 1))
        },
    }
}

/// The dialect named by the suffix of the file at `p`: `ts` or `tsx`;
/// any other or missing suffix is refused.
pub open spec fn spec_infer_lang(p: Seq<u8>) -> Result<Lang, Error> {
    match suffix_of(file_name_of(p)) {
        Option::None => Result::Err(Error::UnsupportedFile),
        Option::Some(s) => if s == ts_suffix() {
            Result::Ok(Lang::TypeScript)
        } else if s == tsx_suffix() {
            Result::Ok(Lang::TypeScriptTsx)
        } else {
            Result::Err(Error::UnsupportedFile)
        },
    }
}

/// The replacements for a move from directory `sdir` to directory
/// `tdir`: one per relative import literal, holding the minimal
/// specifier that denotes the same module from `tdir`; non-relative
/// literals get none. Fails when a relative import escapes the root.
pub open spec fn spec_edits(lits: Seq<GSpan>, sdir: Seq<Seq<u8>>, tdir: Seq<Seq<u8>>) -> Result<
    Seq<GSpan>,
    (),
>
    decreases lits.len(),
{
    if lits.len() == 0 {
        Result::Ok(Seq::<GSpan>::empty())
    } else if !is_relative(lits[0].val) {
        spec_edits(lits.drop_first(), sdir, tdir)
    } else {
        match to_abs(sdir, lits[0].val) {
            Option::None => Result::Err(()),
            Option::Some(m) => match spec_edits(lits.drop_first(), sdir, tdir) {
                Result::Err(e) => Result::Err(e),
                Result::Ok(rest) => Result::Ok(
                    seq![
                        GSpan {
                            start: lits[0].start,
                            end: lits[0].end,
                            val: from_abs(tdir, m),
                        },
                    ] + rest,
                ),
            },
        }
    }
}

/// The rewritten text for a move of the file at `src` to `tgt`: the text
/// unchanged when the two directories are equal, and otherwise, under
/// the dialect of `tgt`'s suffix, the text with every relative import
/// literal replaced as [`spec_edits`] says.
pub open spec fn spec_update_imports(code: Seq<u8>, src: Seq<u8>, tgt: Seq<u8>) -> Result<
    Seq<u8>,
    Error,
> {
    if parent_of(src) == parent_of(tgt) {
        Result::Ok(code)
    } else {
        match spec_infer_lang(tgt) {
            Result::Err(e) => Result::Err(e),
            Result::Ok(_) => match scan_text(code) {
                Result::Err(_) => Result::Err(Error::ParseError),
                Result::Ok(lits) => match spec_edits(lits, parent_of(src), parent_of(tgt)) {
                    Result::Err(_) => Result::Err(Error::ImportEscapesRoot),
                    Result::Ok(es) => Result::Ok(apply_edits(code, es, 0)),
                },
            },
        }
    }
}

/// The view of a rewrite result.
pub open spec fn bytes_res_view(r: Result<Vec<u8>, Error>) -> Result<Seq<u8>, Error> {
    match r {
        Result::Ok(v) => Result::Ok(v@),
        Result::Err(e) => Result::Err(e),
    }
}

/// The replacements keep the literals' ranges, so they stay in strictly
/// ascending disjoint ranges.
pub proof fn lemma_edits_sorted(
    lits: Seq<GSpan>,
    sdir: Seq<Seq<u8>>,
    tdir: Seq<Seq<u8>>,
    lo: int,
    len: int,
)
    requires
        spans_sorted(lits, lo, len),
        spec_edits(lits, sdir, tdir) is Ok,
    ensures
        spans_sorted(spec_edits(lits, sdir, tdir).unwrap(), lo, len),
    decreases lits.len(),
{
    if lits.len() == 0 {
    } else if !is_relative(lits[0].val) {
        lemma_edits_sorted(lits.drop_first(), sdir, tdir, lits[0].end + 1, len);
        crate::scanner::lemma_sorted_weaken(
            spec_edits(lits, sdir, tdir).unwrap(),
            lo,
            lits[0].end + 1,
            len,
        );
    } else {
        lemma_edits_sorted(lits.drop_first(), sdir, tdir, lits[0].end + 1, len);
        let full = spec_edits(lits, sdir, tdir).unwrap();
        assert(full.drop_first() =~= spec_edits(lits.drop_first(), sdir, tdir).unwrap());
    }
}

/// When no import literal of `lits` is relative, nothing is replaced.
pub proof fn lemma_edits_none(lits: Seq<GSpan>, sdir: Seq<Seq<u8>>, tdir: Seq<Seq<u8>>)
    requires
        forall|j: int| 0 <= j < lits.len() ==> !is_relative(#[trigger] lits[j].val),
    ensures
        spec_edits(lits, sdir, tdir) == Result::<Seq<GSpan>, ()>::Ok(Seq::<GSpan>::empty()),
    decreases lits.len(),
{
    if lits.len() > 0 {
        assert(forall|j: int|
            0 <= j < lits.drop_first().len() ==> #[trigger] lits.drop_first()[j]
                == lits[j + 1]);
        lemma_edits_none(lits.drop_first(), sdir, tdir);
    }
}

/// Whether `e` stands at the range of some relative import literal of
/// `lits`.
pub open spec fn edit_at_relative_lit(e: GSpan, lits: Seq<GSpan>) -> bool {
    exists|k: int|
        0 <= k < lits.len() && is_relative(#[trigger] lits[k].val) && e.start == lits[k].start
            && e.end == lits[k].end
}

/// Law: every replacement stands at the range of a relative import
/// literal, so a non-relative specifier is never modified, however far
/// the move goes.
pub proof fn lemma_edits_only_relative(lits: Seq<GSpan>, sdir: Seq<Seq<u8>>, tdir: Seq<Seq<u8>>)
    requires
        spec_edits(lits, sdir, tdir) is Ok,
    ensures
        forall|j: int|
            0 <= j < spec_edits(lits, sdir, tdir).unwrap().len() ==> edit_at_relative_lit(
                #[trigger] spec_edits(lits, sdir, tdir).unwrap()[j],
                lits,
            ),
    decreases lits.len(),
{
    if lits.len() == 0 {
    } else {
        let tail = lits.drop_first();
        lemma_edits_only_relative(tail, sdir, tdir);
        let edits = spec_edits(lits, sdir, tdir).unwrap();
        let tail_edits = spec_edits(tail, sdir, tdir).unwrap();
        assert forall|j: int| 0 <= j < edits.len() implies edit_at_relative_lit(
            #[trigger] edits[j],
            lits,
        ) by {
            if is_relative(lits[0].val) && j == 0 {
                assert(edits[0].start == lits[0].start && edits[0].end == lits[0].end);
                assert(edit_at_relative_lit(edits[0], lits));
            } else {
                let jt = if is_relative(lits[0].val) {
                    j - 1
                } else {
                    j
                };
                assert(edits[j] == tail_edits[jt]);
                assert(edit_at_relative_lit(tail_edits[jt], tail));
                let k0 = choose|k0: int|
                    0 <= k0 < tail.len() && is_relative(#[trigger] tail[k0].val)
                        && tail_edits[jt].start == tail[k0].start && tail_edits[jt].end
                        == tail[k0].end;
                assert(tail[k0] == lits[k0 + 1]);
                assert(0 <= k0 + 1 < lits.len() && is_relative(lits[k0 + 1].val)
                    && edits[j].start == lits[k0 + 1].start && edits[j].end == lits[k0 + 1].end);
                assert(edit_at_relative_lit(edits[j], lits));
            }
        }
    }
}

/// Law: a move between equal directories, and in particular a move of a
/// file onto itself, returns the text unchanged.
pub proof fn lemma_same_dir_identity(code: Seq<u8>, src: Seq<u8>, tgt: Seq<u8>)
    requires
        parent_of(src) == parent_of(tgt),
    ensures
        spec_update_imports(code, src, tgt) == Result::<Seq<u8>, Error>::Ok(code),
{
}

/// Law: running the rewrite with equal source and target file is the
/// identity on the text, whatever the text holds.
pub proof fn lemma_noop_move(code: Seq<u8>, p: Seq<u8>)
    ensures
        spec_update_imports(code, p, p) == Result::<Seq<u8>, Error>::Ok(code),
{
}

/// Law: when the directories differ and the source text does not scan,
/// the rewrite reports a parse failure and yields no text at all.
pub proof fn lemma_parse_failure(code: Seq<u8>, src: Seq<u8>, tgt: Seq<u8>)
    requires
        parent_of(src) != parent_of(tgt),
        spec_infer_lang(tgt) is Ok,
        scan_text(code) is Err,
    ensures
        spec_update_imports(code, src, tgt) == Result::<Seq<u8>, Error>::Err(Error::ParseError),
{
}

/// Law: non-relative specifiers are never modified — a text whose import
/// literals are all non-relative comes back byte-identical, however far
/// the move goes.
pub proof fn lemma_non_relative_untouched(code: Seq<u8>, src: Seq<u8>, tgt: Seq<u8>)
    requires
        spec_infer_lang(tgt) is Ok,
        scan_text(code) is Ok,
        forall|j: int|
            0 <= j < scan_text(code).unwrap().len() ==> !is_relative(
                #[trigger] scan_text(code).unwrap()[j].val,
            ),
    ensures
        spec_update_imports(code, src, tgt) == Result::<Seq<u8>, Error>::Ok(code),
{
    if parent_of(src) != parent_of(tgt) {
        lemma_edits_none(scan_text(code).unwrap(), parent_of(src), parent_of(tgt));
        assert(apply_edits(code, Seq::<GSpan>::empty(), 0) =~= code);
    }
}

/// Law: a rewritten specifier denotes from the target directory exactly
/// the module that the written one denoted from the source directory —
/// provided that module's final segment carries no known source-file
/// extension, since the rewritten specifier always drops one.
pub proof fn lemma_edit_preserves_module(sdir: Seq<Seq<u8>>, tdir: Seq<Seq<u8>>, v: Seq<u8>)
    requires
        wf_segs(sdir),
        to_abs(sdir, v) is Some,
        to_abs(sdir, v).unwrap().len() > 0 ==> no_known_ext(to_abs(sdir, v).unwrap().last()),
    ensures
        to_abs(tdir, from_abs(tdir, to_abs(sdir, v).unwrap())) == to_abs(sdir, v),
{
    lemma_split_slash_free(v);
    lemma_resolve_wf(sdir, split_bytes(v));
    lemma_move_preserves_module(tdir, to_abs(sdir, v).unwrap());
}

/// The position of the last occurrence of `b` among the first `n` bytes.
fn rfind_exec(v: &Vec<u8>, b: u8, n: usize) -> (r: Option<usize>)
    requires
        n <= v.len(),
    ensures
        match r {
            Option::Some(k) => rfind(v@.take(n as int), b) == Option::Some(k as int) && k < n,
            Option::None => rfind(v@.take(n as int), b) is None,
        },
    decreases n,
{
    if n == 0 {
        Option::None
    } else if v[n - 1] == b {
        proof {
            assert(v@.take(n as int)[n - 1] == v@[n - 1]);
        }
        Option::Some(n - 1)
    } else {
        let r = rfind_exec(v, b, n - 1);
        proof {
            assert(v@.take(n as int)[n - 1] == v@[n - 1]);
            assert(v@.take(n as int).drop_last() =~= v@.take(n as int - 1));
        }
        r
    }
}

/// The dialect named by the suffix of `file_name`: `ts` or `tsx`; any
/// other or missing suffix is refused with `UnsupportedFile`.
#[verifier::rlimit(25)]
pub fn infer_langauge_from_suffix(file_name: &Vec<u8>) -> (r: Result<Lang, Error>)
    ensures
        r == spec_infer_lang(file_name@),
{
    proof {
        assert(file_name@.take(file_name@.len() as int) =~= file_name@);
    }
    let k = rfind_exec(file_name, 47u8, file_name.len());
    let name = match k {
        Option::Some(ks) => subvec(file_name, ks + 1, file_name.len()),
        Option::None => subvec(file_name, 0, file_name.len()),
    };
    proof {
        assert(name@ =~= file_name_of(file_name@));
        assert(name@.take(name@.len() as int) =~= name@);
    }
    let d = rfind_exec(&name, 46u8, name.len());
    match d {
        Option::None => Result::Err(Error::UnsupportedFile),
        Option::Some(dk) => {
            if dk == 0 {
                return Result::Err(Error::UnsupportedFile);
            }
            let sfx = subvec(&name, dk + 1, name.len());
            proof {
                assert(sfx@ =~= suffix_of(file_name_of(file_name@)).unwrap());
            }
            if sfx.len() == 2 && sfx[0] == 116u8 && sfx[1] == 115u8 {
                proof {
                    assert(sfx@ =~= ts_suffix());
                }
                Result::Ok(Lang::TypeScript)
            } else if sfx.len() == 3 && sfx[0] == 116u8 && sfx[1] == 115u8 && sfx[2] == 120u8 {
                proof {
                    assert(sfx@ =~= tsx_suffix());
                    assert(sfx@ != ts_suffix());
                }
                Result::Ok(Lang::TypeScriptTsx)
            } else {
                proof {
                    if sfx@ == ts_suffix() {
                        assert(sfx@[0] == 116u8 && sfx@[1] == 115u8);
                    }
                    if sfx@ == tsx_suffix() {
                        assert(sfx@[0] == 116u8 && sfx@[1] == 115u8 && sfx@[2] == 120u8);
                    }
                }
                Result::Err(Error::UnsupportedFile)
            }
        },
    }
}

/// The replacements for the literals from index `idx` on.
fn rewrite_from(lits: &Vec<Span>, idx: usize, sdir: &Vec<Vec<u8>>, tdir: &Vec<Vec<u8>>) -> (r:
    Result<Vec<Span>, Error>)
    requires
        idx <= lits.len(),
    ensures
        match r {
            Result::Ok(v) => spec_edits(
                spans_view(lits@).skip(idx as int),
                segs_view(sdir@),
                segs_view(tdir@),
            ) == Result::<Seq<GSpan>, ()>::Ok(spans_view(v@)),
            Result::Err(e) => spec_edits(
                spans_view(lits@).skip(idx as int),
                segs_view(sdir@),
                segs_view(tdir@),
            ) is Err && e == Error::ImportEscapesRoot,
        },
    decreases lits.len() - idx,
{
    let ghost tail = spans_view(lits@).skip(idx as int);
    if idx == lits.len() {
        let v: Vec<Span> = Vec::new();
        proof {
            assert(spans_view(v@) =~= Seq::<GSpan>::empty());
        }
        Result::Ok(v)
    } else {
        proof {
            assert(tail[0] == spans_view(lits@)[idx as int]);
            assert(tail.drop_first() =~= spans_view(lits@).skip(idx as int + 1));
        }
        let lit = &lits[idx];
        if !is_relative_exec(&lit.val) {
            rewrite_from(lits, idx + 1, sdir, tdir)
        } else {
            let rel = split_from(&lit.val, 0);
            proof {
                assert(lit.val@.skip(0) =~= lit.val@);
            }
            match resolve_exec(sdir, &rel) {
                Option::None => Result::Err(Error::ImportEscapesRoot),
                Option::Some(m) => {
                    let new_val = from_abs_dir(tdir, &m);
                    match rewrite_from(lits, idx + 1, sdir, tdir) {
                        Result::Err(e) => Result::Err(e),
                        Result::Ok(rest) => {
                            let mut out = rest;
                            out.insert(0, Span { start: lit.start, end: lit.end, val: new_val });
                            proof {
                                let g = GSpan {
                                    start: tail[0].start,
                                    end: tail[0].end,
                                    val: from_abs(segs_view(tdir@), segs_view(m@)),
                                };
                                let spec_rest = spec_edits(
                                    tail.drop_first(),
                                    segs_view(sdir@),
                                    segs_view(tdir@),
                                ).unwrap();
                                assert(spans_view(out@) =~= seq![g] + spec_rest);
                            }
                            Result::Ok(out)
                        },
                    }
                },
            }
        }
    }
}

/// The text of the file at `source_file`, rewritten for its move to
/// `target_file`: unchanged when the two directories are equal, and
/// otherwise, under the dialect of the target's suffix, with every
/// relative import literal replaced by the minimal specifier that
/// denotes the same module from the new directory, every other byte kept
/// identical. Pure in the file system; errors yield no text at all.
pub fn update_imports(source_code: Vec<u8>, source_file: &Vec<u8>, target_file: &Vec<u8>) -> (r:
    Result<Vec<u8>, Error>)
    requires
        valid_abs_path(source_file@),
        valid_abs_path(target_file@),
    ensures
        bytes_res_view(r) == spec_update_imports(source_code@, source_file@, target_file@),
{
    let sdir = parent_dir(source_file);
    let tdir = parent_dir(target_file);
    if segs_eq(&sdir, &tdir) {
        return Result::Ok(source_code);
    }
    match infer_langauge_from_suffix(target_file) {
        Result::Err(e) => Result::Err(e),
        Result::Ok(_) => {
            match scan_imports(&source_code) {
                Result::Err(_) => Result::Err(Error::ParseError),
                Result::Ok(lits) => {
                    proof {
                        lemma_scan_sorted(source_code@, 0, ScanState::Code);
                        assert(spans_view(lits@).skip(0) =~= spans_view(lits@));
                    }
                    match rewrite_from(&lits, 0, &sdir, &tdir) {
                        Result::Err(e) => Result::Err(e),
                        Result::Ok(edits) => {
                            proof {
                                lemma_edits_sorted(
                                    spans_view(lits@),
                                    segs_view(sdir@),
                                    segs_view(tdir@),
                                    0,
                                    source_code@.len() as int,
                                );
                                assert(spans_view(edits@).skip(0) =~= spans_view(edits@));
                            }
                            let out = apply_edits_exec(&source_code, &edits, 0, 0);
                            Result::Ok(out)
                        },
                    }
                },
            }
        },
    }
}

} // verus!
