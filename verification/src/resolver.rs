//! Import resolution: a written relative specifier plus its importer
//! directory denote an absolute module path; a module path plus a new
//! importer directory yield the minimal relative specifier that denotes
//! it from there.
//!
//! The referential-integrity law the whole crate exists to preserve is
//! [`lemma_move_preserves_module`]: resolving the specifier written for a
//! new importer directory yields exactly the module it was written for,
//! so moving an importer never changes which module an import denotes.
use vstd::prelude::*;

use crate::path_alg::bytes_eq;
use crate::path_alg::dot_seg;
use crate::path_alg::dotdot_seg;
use crate::path_alg::is_dot;
use crate::path_alg::is_dotdot;
use crate::path_alg::join_from;
use crate::path_alg::join_segs;
use crate::path_alg::lemma_split_join;
use crate::path_alg::lemma_split_slash_free;
use crate::path_alg::no_known_ext;
use crate::path_alg::parent_of;
use crate::path_alg::path_segs;
use crate::path_alg::segs_view;
use crate::path_alg::slash_free;
use crate::path_alg::split_bytes;
use crate::path_alg::split_from;
use crate::path_alg::strip_ext;
use crate::path_alg::strip_ext_exec;
use crate::path_alg::subvec;
use crate::path_alg::valid_abs_path;
use crate::path_alg::wf_seg;
use crate::path_alg::wf_segs;

verus! {

/// Whether the specifier `s` is relative: its first segment is `.` or
/// `..`, that is, it is `.` or `..` or starts with `./` or `../`.
pub open spec fn is_relative(s: Seq<u8>) -> bool {
    split_bytes(s)[0] == dot_seg() || split_bytes(s)[0] == dotdot_seg()
}

/// The absolute path reached from directory `dir` by following the
/// specifier segments `rel` in order: `.` and empty segments change
/// nothing, `..` ascends one level and fails at the root, and every other
/// segment descends.
pub open spec fn resolve_rel(dir: Seq<Seq<u8>>, rel: Seq<Seq<u8>>) -> Option<Seq<Seq<u8>>>
    decreases rel.len(),
{
    if rel.len() == 0 {
        Option::Some(dir)
    } else if rel[0].len() == 0 || rel[0] == dot_seg() {
        resolve_rel(dir, rel.drop_first())
    } else if rel[0] == dotdot_seg() {
        if dir.len() == 0 {
            Option::None
        } else {
            resolve_rel(dir.drop_last(), rel.drop_first())
        }
    } else {
        resolve_rel(dir.push(rel[0]), rel.drop_first())
    }
}

/// The absolute module path denoted by specifier `s` as written in a file
/// of directory `dir`.
pub open spec fn to_abs(dir: Seq<Seq<u8>>, s: Seq<u8>) -> Option<Seq<Seq<u8>>> {
    resolve_rel(dir, split_bytes(s))
}

/// `n` copies of the `..` segment.
pub open spec fn rep_dotdot(n: int) -> Seq<Seq<u8>>
    decreases n,
{
    if n <= 0 {
        Seq::<Seq<u8>>::empty()
    } else {
        seq![dotdot_seg()] + rep_dotdot(n - 1)
    }
}

/// The length of the common prefix of `a` and `b`, counted from `k` on.
pub open spec fn lcp_from(a: Seq<Seq<u8>>, b: Seq<Seq<u8>>, k: int) -> int
    decreases a.len() - k,
{
    if k < 0 || k >= a.len() || k >= b.len() {
        k
    } else if a[k] == b[k] {
        lcp_from(a, b, k + 1)
    } else {
        k
    }
}

/// The segments of the minimal relative specifier that reaches `m` from
/// directory `dir`: one `..` per level ascended above the common prefix,
/// then the remaining segments of `m`; a specifier that ascends nowhere
/// gets a leading `.` so that it is never a bare package name.
pub open spec fn rel_segments(dir: Seq<Seq<u8>>, m: Seq<Seq<u8>>) -> Seq<Seq<u8>> {
    let k = lcp_from(dir, m, 0);
    if k == dir.len() {
        seq![dot_seg()] + m.skip(k)
    } else {
        rep_dotdot(dir.len() - k) + m.skip(k)
    }
}

/// `m` with a known source-file extension stripped from its final
/// segment.
pub open spec fn strip_last(m: Seq<Seq<u8>>) -> Seq<Seq<u8>> {
    if m.len() == 0 {
        m
    } else {
        m.update(m.len() - 1, strip_ext(m.last()))
    }
}

/// The minimal relative specifier, as a byte string, that denotes module
/// `m` from a file of directory `dir`, with any known source-file
/// extension stripped from the final segment.
pub open spec fn from_abs(dir: Seq<Seq<u8>>, m: Seq<Seq<u8>>) -> Seq<u8> {
    join_segs(rel_segments(dir, strip_last(m)))
}

/// The view of an optional segment vector.
pub open spec fn opt_segs_view(r: Option<Vec<Vec<u8>>>) -> Option<Seq<Seq<u8>>> {
    match r {
        Option::Some(v) => Option::Some(segs_view(v@)),
        Option::None => Option::None,
    }
}

/// `rep_dotdot(n)` has `n` segments, every one of them `..`.
pub proof fn lemma_rep_index(n: int)
    requires
        n >= 0,
    ensures
        rep_dotdot(n).len() == n,
        forall|i: int| 0 <= i < n ==> rep_dotdot(n)[i] == dotdot_seg(),
    decreases n,
{
    if n > 0 {
        lemma_rep_index(n - 1);
    }
}

/// The common prefix found from a position where the sequences already
/// agree is within both lengths, and the sequences agree on it.
pub proof fn lemma_lcp(a: Seq<Seq<u8>>, b: Seq<Seq<u8>>, k: int)
    requires
        0 <= k <= a.len(),
        k <= b.len(),
        a.take(k) == b.take(k),
    ensures
        k <= lcp_from(a, b, k) <= a.len(),
        lcp_from(a, b, k) <= b.len(),
        a.take(lcp_from(a, b, k)) == b.take(lcp_from(a, b, k)),
    decreases a.len() - k,
{
    if k < a.len() && k < b.len() && a[k] == b[k] {
        assert(a.take(k + 1) =~= b.take(k + 1));
        lemma_lcp(a, b, k + 1);
    }
}

/// Resolution against a well-formed directory yields well-formed
/// segments, whatever separator-free specifier segments it follows.
pub proof fn lemma_resolve_wf(dir: Seq<Seq<u8>>, rel: Seq<Seq<u8>>)
    requires
        wf_segs(dir),
        forall|i: int| 0 <= i < rel.len() ==> slash_free(#[trigger] rel[i]),
        resolve_rel(dir, rel) is Some,
    ensures
        wf_segs(resolve_rel(dir, rel).unwrap()),
    decreases rel.len(),
{
    if rel.len() == 0 {
    } else if rel[0].len() == 0 || rel[0] == dot_seg() {
        lemma_resolve_wf(dir, rel.drop_first());
    } else if rel[0] == dotdot_seg() {
        assert(wf_segs(dir.drop_last())) by {
            assert(forall|i: int|
                0 <= i < dir.drop_last().len() ==> #[trigger] dir.drop_last()[i] == dir[i]);
        }
        lemma_resolve_wf(dir.drop_last(), rel.drop_first());
    } else {
        assert(wf_seg(rel[0]));
        assert(wf_segs(dir.push(rel[0]))) by {
            assert(forall|i: int|
                0 <= i < dir.len() ==> #[trigger] dir.push(rel[0])[i] == dir[i]);
            assert(dir.push(rel[0])[dir.len() as int] == rel[0]);
        }
        lemma_resolve_wf(dir.push(rel[0]), rel.drop_first());
    }
}

/// Following `u` leading `..` segments ascends exactly `u` levels.
pub proof fn lemma_resolve_ups(dir: Seq<Seq<u8>>, u: int, downs: Seq<Seq<u8>>)
    requires
        0 <= u <= dir.len(),
    ensures
        resolve_rel(dir, rep_dotdot(u) + downs) == resolve_rel(
            dir.take(dir.len() - u),
            downs,
        ),
    decreases u,
{
    if u <= 0 {
        assert(rep_dotdot(0) + downs =~= downs);
        assert(dir.take(dir.len() as int) =~= dir);
    } else {
        lemma_rep_index(u);
        let rel = rep_dotdot(u) + downs;
        assert(rel[0] == dotdot_seg());
        assert(rel.drop_first() =~= rep_dotdot(u - 1) + downs) by {
            lemma_rep_index(u - 1);
        }
        lemma_resolve_ups(dir.drop_last(), u - 1, downs);
        assert(dir.drop_last().take(dir.len() - u) =~= dir.take(dir.len() - u));
    }
}

/// Following only well-formed descending segments appends them.
pub proof fn lemma_resolve_downs(dir: Seq<Seq<u8>>, downs: Seq<Seq<u8>>)
    requires
        wf_segs(downs),
    ensures
        resolve_rel(dir, downs) == Option::Some(dir + downs),
    decreases downs.len(),
{
    if downs.len() == 0 {
        assert(dir + downs =~= dir);
    } else {
        assert(wf_seg(downs[0]));
        assert(wf_segs(downs.drop_first())) by {
            assert(forall|i: int|
                0 <= i < downs.drop_first().len() ==> #[trigger] downs.drop_first()[i]
                    == downs[i + 1]);
        }
        lemma_resolve_downs(dir.push(downs[0]), downs.drop_first());
        assert(dir.push(downs[0]) + downs.drop_first() =~= dir + downs);
    }
}

/// Resolving the minimal relative segments from `dir` to `m` yields `m`.
pub proof fn lemma_rel_roundtrip(dir: Seq<Seq<u8>>, m: Seq<Seq<u8>>)
    requires
        wf_segs(m),
    ensures
        resolve_rel(dir, rel_segments(dir, m)) == Option::Some(m),
{
    let k = lcp_from(dir, m, 0);
    assert(dir.take(0) =~= m.take(0));
    lemma_lcp(dir, m, 0);
    let downs = m.skip(k);
    assert(wf_segs(downs)) by {
        assert(forall|i: int| 0 <= i < downs.len() ==> #[trigger] downs[i] == m[i + k]);
    }
    if k == dir.len() {
        let rel = seq![dot_seg()] + downs;
        assert(rel[0] == dot_seg());
        assert(rel.drop_first() =~= downs);
        lemma_resolve_downs(dir, downs);
        assert(dir + downs =~= m) by {
            assert(dir =~= dir.take(k));
            assert(forall|i: int| 0 <= i < k ==> #[trigger] dir.take(k)[i] == m.take(k)[i]);
        }
    } else {
        let u = dir.len() - k;
        lemma_resolve_ups(dir, u, downs);
        lemma_resolve_downs(dir.take(k), downs);
        assert(dir.take(k) + downs =~= m) by {
            assert(forall|i: int| 0 <= i < k ==> #[trigger] dir.take(k)[i] == m.take(k)[i]);
        }
    }
}

/// The law this crate preserves: the specifier written for a new importer
/// directory denotes, from there, exactly the module it was written for —
/// and it is again a relative specifier, so a further move treats it the
/// same way. The final segment of the module must not carry a known
/// source-file extension, since the written specifier always drops one.
pub proof fn lemma_move_preserves_module(dir: Seq<Seq<u8>>, m: Seq<Seq<u8>>)
    requires
        wf_segs(m),
        m.len() > 0 ==> no_known_ext(m.last()),
    ensures
        to_abs(dir, from_abs(dir, m)) == Option::Some(m),
        is_relative(from_abs(dir, m)),
{
    assert(strip_last(m) =~= m);
    let segs = rel_segments(dir, m);
    let k = lcp_from(dir, m, 0);
    assert(dir.take(0) =~= m.take(0));
    lemma_lcp(dir, m, 0);
    assert(segs.len() > 0) by {
        if k != dir.len() {
            lemma_rep_index(dir.len() - k);
        }
    }
    assert(forall|i: int| 0 <= i < segs.len() ==> slash_free(#[trigger] segs[i])) by {
        lemma_rep_index(if k == dir.len() {
            0int
        } else {
            dir.len() - k
        });
        assert(forall|i: int|
            0 <= i < m.skip(k).len() ==> #[trigger] m.skip(k)[i] == m[i + k]);
    }
    lemma_split_join(segs);
    lemma_rel_roundtrip(dir, m);
    assert(is_relative(join_segs(segs))) by {
        if k == dir.len() {
            assert(segs[0] == dot_seg());
        } else {
            lemma_rep_index(dir.len() - k);
            assert(segs[0] == dotdot_seg());
        }
    }
}

/// Chained-move correctness: after a move whose rewrite turned the
/// specifier for module `m` into one written for directory `d2`, and a
/// second move that resolves that specifier at `d2` and rewrites it for
/// directory `d3`, the specifier finally written still denotes `m`.
pub proof fn lemma_chained_moves(d2: Seq<Seq<u8>>, d3: Seq<Seq<u8>>, m: Seq<Seq<u8>>)
    requires
        wf_segs(m),
        m.len() > 0 ==> no_known_ext(m.last()),
    ensures
        to_abs(d2, from_abs(d2, m)) == Option::Some(m),
        to_abs(d3, from_abs(d3, to_abs(d2, from_abs(d2, m)).unwrap())) == Option::Some(m),
{
    lemma_move_preserves_module(d2, m);
    lemma_move_preserves_module(d3, m);
}

/// Whether the byte string `s` is a relative specifier.
pub fn is_relative_exec(s: &Vec<u8>) -> (r: bool)
    ensures
        r == is_relative(s@),
{
    let segs = split_from(s, 0);
    proof {
        assert(s@.skip(0) =~= s@);
    }
    is_dot(&segs[0]) || is_dotdot(&segs[0])
}

/// Pushes `d`, recording the effect on the segment view.
pub fn push_seg(v: &mut Vec<Vec<u8>>, d: Vec<u8>)
    ensures
        segs_view(final(v)@) == segs_view(old(v)@).push(d@),
{
    let ghost dv = d@;
    v.push(d);
    proof {
        assert(segs_view(v@) =~= segs_view(old(v)@).push(dv));
    }
}

/// Drops the final segment, recording the effect on the segment view.
pub fn pop_seg(v: &mut Vec<Vec<u8>>)
    requires
        old(v).len() > 0,
    ensures
        segs_view(final(v)@) == segs_view(old(v)@).drop_last(),
{
    v.pop();
    proof {
        assert(segs_view(v@) =~= segs_view(old(v)@).drop_last());
    }
}

/// A copy of the segment vector `v`.
pub fn copy_segs(v: &Vec<Vec<u8>>) -> (r: Vec<Vec<u8>>)
    ensures
        segs_view(r@) == segs_view(v@),
{
    let mut r: Vec<Vec<u8>> = Vec::new();
    proof {
        assert(segs_view(r@) =~= segs_view(v@).take(0));
    }
    let mut i: usize = 0;
    while i < v.len()
        invariant
            0 <= i <= v.len(),
            segs_view(r@) == segs_view(v@).take(i as int),
        decreases v.len() - i,
    {
        let c = subvec(&v[i], 0, v[i].len());
        proof {
            assert(c@ =~= v@[i as int]@);
        }
        push_seg(&mut r, c);
        proof {
            assert(segs_view(r@) =~= segs_view(v@).take(i as int + 1));
        }
        i = i + 1;
    }
    proof {
        assert(segs_view(v@).take(v@.len() as int) =~= segs_view(v@));
    }
    r
}

/// The directory of the file at well-formed absolute path `p`.
pub fn parent_dir(p: &Vec<u8>) -> (r: Vec<Vec<u8>>)
    requires
        valid_abs_path(p@),
    ensures
        segs_view(r@) == parent_of(p@),
{
    let mut segs = split_from(p, 1);
    proof {
        assert(p@.drop_first() =~= p@.skip(1));
        assert(path_segs(p@) =~~= segs_view(segs@));
    }
    pop_seg(&mut segs);
    proof {
        assert(segs_view(segs@) =~= parent_of(p@));
    }
    segs
}

/// Follows the specifier segments `rel` from directory `dir`.
pub fn resolve_exec(dir: &Vec<Vec<u8>>, rel: &Vec<Vec<u8>>) -> (r: Option<Vec<Vec<u8>>>)
    ensures
        opt_segs_view(r) == resolve_rel(segs_view(dir@), segs_view(rel@)),
{
    let ghost d0 = segs_view(dir@);
    let ghost r0 = segs_view(rel@);
    let mut cur = copy_segs(dir);
    proof {
        assert(r0.skip(0) =~= r0);
    }
    let mut i: usize = 0;
    while i < rel.len()
        invariant
            0 <= i <= rel.len(),
            r0 == segs_view(rel@),
            d0 == segs_view(dir@),
            resolve_rel(segs_view(cur@), r0.skip(i as int)) == resolve_rel(d0, r0),
        decreases rel.len() - i,
    {
        let ghost pre = segs_view(cur@);
        proof {
            assert(r0.skip(i as int)[0] == rel@[i as int]@);
            assert(r0.skip(i as int).drop_first() =~= r0.skip(i as int + 1));
        }
        let seg = &rel[i];
        if seg.len() == 0 || is_dot(seg) {
        } else if is_dotdot(seg) {
            if cur.len() == 0 {
                proof {
                    assert(resolve_rel(pre, r0.skip(i as int)) is None);
                    assert(resolve_rel(d0, r0) == Option::<Seq<Seq<u8>>>::None);
                }
                return Option::None;
            }
            pop_seg(&mut cur);
        } else {
            let copy = subvec(seg, 0, seg.len());
            proof {
                assert(copy@ =~= rel@[i as int]@);
            }
            push_seg(&mut cur, copy);
        }
        i = i + 1;
    }
    proof {
        assert(r0.skip(rel@.len() as int) =~= Seq::<Seq<u8>>::empty());
    }
    Option::Some(cur)
}

/// The length of the common prefix of `a` and `b`, counted from `k` on.
pub fn lcp_exec(a: &Vec<Vec<u8>>, b: &Vec<Vec<u8>>, k: usize) -> (r: usize)
    requires
        k <= a.len(),
        k <= b.len(),
    ensures
        r == lcp_from(segs_view(a@), segs_view(b@), k as int),
    decreases a.len() - k,
{
    if k < a.len() && k < b.len() {
        if bytes_eq(&a[k], &b[k]) {
            return lcp_exec(a, b, k + 1);
        }
    }
    k
}

/// The segments of the minimal relative specifier from `dir` to `m`.
pub fn rel_segments_exec(dir: &Vec<Vec<u8>>, m: &Vec<Vec<u8>>) -> (r: Vec<Vec<u8>>)
    ensures
        segs_view(r@) == rel_segments(segs_view(dir@), segs_view(m@)),
{
    let ghost dv = segs_view(dir@);
    let ghost mv = segs_view(m@);
    let k = lcp_exec(dir, m, 0);
    proof {
        assert(dv.take(0) =~= mv.take(0));
        lemma_lcp(dv, mv, 0);
    }
    let mut out: Vec<Vec<u8>> = Vec::new();
    if k == dir.len() {
        let mut d: Vec<u8> = Vec::new();
        d.push(46u8);
        proof {
            assert(d@ =~= dot_seg());
        }
        push_seg(&mut out, d);
        proof {
            assert(segs_view(out@) =~~= seq![dot_seg()]);
        }
    } else {
        proof {
            assert(segs_view(out@) =~= rep_dotdot(0));
        }
        let mut i: usize = k;
        while i < dir.len()
            invariant
                k <= i <= dir.len(),
                segs_view(out@) == rep_dotdot(i - k),
            decreases dir.len() - i,
        {
            let mut d: Vec<u8> = Vec::new();
            d.push(46u8);
            d.push(46u8);
            proof {
                assert(d@ =~= dotdot_seg());
            }
            push_seg(&mut out, d);
            proof {
                lemma_rep_index(i + 1 - k);
                lemma_rep_index(i - k);
                assert(segs_view(out@) =~~= rep_dotdot(i + 1 - k));
            }
            i = i + 1;
        }
    }
    let ghost head = segs_view(out@);
    proof {
        assert(segs_view(out@) =~= head + mv.subrange(k as int, k as int));
    }
    let mut j: usize = k;
    while j < m.len()
        invariant
            k <= j <= m.len(),
            k <= mv.len(),
            mv == segs_view(m@),
            segs_view(out@) == head + mv.subrange(k as int, j as int),
        decreases m.len() - j,
    {
        let c = subvec(&m[j], 0, m[j].len());
        proof {
            assert(c@ =~= mv[j as int]);
        }
        push_seg(&mut out, c);
        proof {
            assert(segs_view(out@) =~= head + mv.subrange(k as int, j as int + 1));
        }
        j = j + 1;
    }
    proof {
        assert(mv.subrange(k as int, mv.len() as int) =~= mv.skip(k as int));
        assert(segs_view(out@) =~= head + mv.skip(k as int));
    }
    out
}

/// `m` with a known source-file extension stripped from its final
/// segment.
pub fn strip_last_exec(m: &Vec<Vec<u8>>) -> (r: Vec<Vec<u8>>)
    ensures
        segs_view(r@) == strip_last(segs_view(m@)),
{
    let mut r = copy_segs(m);
    if r.len() > 0 {
        let stripped = strip_ext_exec(&r[r.len() - 1]);
        pop_seg(&mut r);
        push_seg(&mut r, stripped);
        proof {
            assert(segs_view(r@) =~= strip_last(segs_view(m@)));
        }
    } else {
        proof {
            assert(segs_view(r@) =~= strip_last(segs_view(m@)));
        }
    }
    r
}

/// The minimal relative specifier that denotes module `m` from a file of
/// directory `dir`.
pub fn from_abs_dir(dir: &Vec<Vec<u8>>, m: &Vec<Vec<u8>>) -> (r: Vec<u8>)
    ensures
        r@ == from_abs(segs_view(dir@), segs_view(m@)),
{
    let stripped = strip_last_exec(m);
    let segs = rel_segments_exec(dir, &stripped);
    let r = join_from(&segs, 0);
    proof {
        assert(segs_view(segs@).skip(0) =~= segs_view(segs@));
    }
    r
}

/// The absolute module path denoted by the relative specifier as written
/// in the importer file; fails exactly when a `..` would escape the root.
pub fn to_absolute(importer_file: &Vec<u8>, specifier: &Vec<u8>) -> (r: Option<Vec<Vec<u8>>>)
    requires
        valid_abs_path(importer_file@),
        is_relative(specifier@),
    ensures
        opt_segs_view(r) == to_abs(parent_of(importer_file@), specifier@),
{
    let dir = parent_dir(importer_file);
    let rel = split_from(specifier, 0);
    proof {
        assert(specifier@.skip(0) =~= specifier@);
    }
    resolve_exec(&dir, &rel)
}

/// The minimal relative specifier that denotes module `module` from the
/// new importer file.
pub fn from_absolute(new_importer_file: &Vec<u8>, module: &Vec<Vec<u8>>) -> (r: Vec<u8>)
    requires
        valid_abs_path(new_importer_file@),
    ensures
        r@ == from_abs(parent_of(new_importer_file@), segs_view(module@)),
{
    let dir = parent_dir(new_importer_file);
    from_abs_dir(&dir, module)
}

} // verus!
