//! Path algebra: absolute paths and specifiers as slash-separated byte
//! strings, split into and joined from their segments.
//!
//! An absolute path such as `/src/a/b/c.ts` is modelled as the sequence of
//! its segments `[src, a, b, c.ts]`; a well-formed absolute path has no
//! empty segment and no `.` or `..` segment, so two paths are equal exactly
//! when their segment sequences are.
use vstd::prelude::*;

verus! {

/// The byte value of `/`, the path separator.
pub open spec fn slash() -> u8 {
    47
}

/// The segment `.`, which names the current directory.
pub open spec fn dot_seg() -> Seq<u8> {
    seq![46u8]
}

/// The segment `..`, which names the parent directory.
pub open spec fn dotdot_seg() -> Seq<u8> {
    seq![46u8, 46u8]
}

/// The byte string `.ts`, a known source-file extension.
pub open spec fn ext_ts() -> Seq<u8> {
    seq![46u8, 116u8, 115u8]
}

/// The byte string `.tsx`, a known source-file extension.
pub open spec fn ext_tsx() -> Seq<u8> {
    seq![46u8, 116u8, 115u8, 120u8]
}

/// Holds when no byte of `s` is the path separator.
pub open spec fn slash_free(s: Seq<u8>) -> bool {
    forall|i: int| 0 <= i < s.len() ==> s[i] != slash()
}

/// The segments of `s`, split at every separator byte; splitting never
/// yields an empty list (the empty string has the single segment ``).
pub open spec fn split_bytes(s: Seq<u8>) -> Seq<Seq<u8>>
    decreases s.len(),
{
    if s.len() == 0 {
        seq![Seq::<u8>::empty()]
    } else if s[0] == slash() {
        seq![Seq::<u8>::empty()] + split_bytes(s.drop_first())
    } else {
        let r = split_bytes(s.drop_first());
        r.update(0, seq![s[0]] + r[0])
    }
}

/// The segments joined back into one byte string, with a separator
/// between every two segments.
pub open spec fn join_segs(segs: Seq<Seq<u8>>) -> Seq<u8>
    decreases segs.len(),
{
    if segs.len() == 0 {
        Seq::<u8>::empty()
    } else if segs.len() == 1 {
        segs[0]
    } else {
        segs[0] + seq![slash()] + join_segs(segs.drop_first())
    }
}

/// A well-formed path segment: non-empty, not a dot segment, and free of
/// separators.
pub open spec fn wf_seg(s: Seq<u8>) -> bool {
    s.len() > 0 && s != dot_seg() && s != dotdot_seg() && slash_free(s)
}

/// All segments of `ss` are well-formed.
pub open spec fn wf_segs(ss: Seq<Seq<u8>>) -> bool {
    forall|i: int| 0 <= i < ss.len() ==> wf_seg(#[trigger] ss[i])
}

/// The segments of an absolute path: everything after the leading
/// separator, split at every further separator.
pub open spec fn path_segs(p: Seq<u8>) -> Seq<Seq<u8>> {
    split_bytes(p).drop_first()
}

/// A well-formed absolute path: it starts with the separator and each of
/// its segments is well-formed (so in particular it does not end in a
/// separator and contains no `.` or `..` segment).
pub open spec fn valid_abs_path(p: Seq<u8>) -> bool {
    p.len() > 0 && p[0] == slash() && wf_segs(path_segs(p))
}

/// The directory of the file at absolute path `p`: all segments but the
/// final filename.
pub open spec fn parent_of(p: Seq<u8>) -> Seq<Seq<u8>> {
    path_segs(p).drop_last()
}

/// `name` with a known source-file extension removed from its end, if one
/// is there and does not make up the whole name.
pub open spec fn strip_ext(name: Seq<u8>) -> Seq<u8> {
    if name.len() > 4 && name.skip(name.len() - 4) == ext_tsx() {
        name.take(name.len() - 4)
    } else if name.len() > 3 && name.skip(name.len() - 3) == ext_ts() {
        name.take(name.len() - 3)
    } else {
        name
    }
}

/// Holds when stripping a known extension from `name` changes nothing.
pub open spec fn no_known_ext(name: Seq<u8>) -> bool {
    strip_ext(name) == name
}

/// The segment views of a vector of byte vectors.
pub open spec fn segs_view(v: Seq<Vec<u8>>) -> Seq<Seq<u8>> {
    Seq::new(v.len(), |i: int| v[i]@)
}

/// Splitting always yields at least one segment.
pub proof fn lemma_split_len(s: Seq<u8>)
    ensures
        split_bytes(s).len() >= 1,
    decreases s.len(),
{
    if s.len() != 0 {
        lemma_split_len(s.drop_first());
    }
}

/// Every segment produced by splitting is free of separators.
pub proof fn lemma_split_slash_free(s: Seq<u8>)
    ensures
        forall|i: int|
            0 <= i < split_bytes(s).len() ==> slash_free(#[trigger] split_bytes(s)[i]),
    decreases s.len(),
{
    if s.len() != 0 {
        lemma_split_slash_free(s.drop_first());
        lemma_split_len(s.drop_first());
        if s[0] != slash() {
            let r = split_bytes(s.drop_first());
            assert forall|i: int| 0 <= i < split_bytes(s).len() implies slash_free(
                #[trigger] split_bytes(s)[i],
            ) by {
                if i == 0 {
                    assert(split_bytes(s)[0] == seq![s[0]] + r[0]);
                    assert(slash_free(r[0]));
                }
            }
        }
    }
}

/// A separator-free string splits into itself alone.
pub proof fn lemma_split_no_slash(s: Seq<u8>)
    requires
        slash_free(s),
    ensures
        split_bytes(s) == seq![s],
    decreases s.len(),
{
    if s.len() == 0 {
        assert(split_bytes(s) =~~= seq![s]);
    } else {
        lemma_split_no_slash(s.drop_first());
        let r = split_bytes(s.drop_first());
        assert(split_bytes(s) =~~= seq![s]);
    }
}

/// Splitting distributes over a separator that follows a separator-free
/// prefix.
pub proof fn lemma_split_concat(s: Seq<u8>, t: Seq<u8>)
    requires
        slash_free(s),
    ensures
        split_bytes(s + seq![slash()] + t) == seq![s] + split_bytes(t),
    decreases s.len(),
{
    let w = s + seq![slash()] + t;
    if s.len() == 0 {
        assert(w[0] == slash());
        assert(w.drop_first() =~= t);
        assert(split_bytes(w) =~~= seq![s] + split_bytes(t));
    } else {
        lemma_split_concat(s.drop_first(), t);
        assert(w.drop_first() =~= s.drop_first() + seq![slash()] + t);
        lemma_split_len(t);
        let r = split_bytes(w.drop_first());
        assert(r == seq![s.drop_first()] + split_bytes(t));
        assert(r[0] == s.drop_first());
        assert(seq![w[0]] + r[0] =~= s);
        assert(split_bytes(w) =~~= seq![s] + split_bytes(t));
    }
}

/// Joining and then splitting well-formed segments is the identity.
pub proof fn lemma_split_join(segs: Seq<Seq<u8>>)
    requires
        segs.len() > 0,
        forall|i: int| 0 <= i < segs.len() ==> slash_free(#[trigger] segs[i]),
    ensures
        split_bytes(join_segs(segs)) == segs,
    decreases segs.len(),
{
    if segs.len() == 1 {
        lemma_split_no_slash(segs[0]);
        assert(split_bytes(join_segs(segs)) =~~= segs);
    } else {
        lemma_split_join(segs.drop_first());
        lemma_split_concat(segs[0], join_segs(segs.drop_first()));
        assert(split_bytes(join_segs(segs)) =~~= segs);
    }
}

/// Whether `a` and `b` hold the same bytes.
pub fn bytes_eq(a: &Vec<u8>, b: &Vec<u8>) -> (r: bool)
    ensures
        r == (a@ == b@),
{
    if a.len() != b.len() {
        return false;
    }
    let mut i: usize = 0;
    while i < a.len()
        invariant
            0 <= i <= a.len(),
            a.len() == b.len(),
            forall|j: int| 0 <= j < i ==> a@[j] == b@[j],
        decreases a.len() - i,
    {
        if a[i] != b[i] {
            return false;
        }
        i = i + 1;
    }
    proof {
        assert(a@ =~= b@);
    }
    true
}

/// Whether `a` and `b` hold the same segments.
pub fn segs_eq(a: &Vec<Vec<u8>>, b: &Vec<Vec<u8>>) -> (r: bool)
    ensures
        r == (segs_view(a@) == segs_view(b@)),
{
    if a.len() != b.len() {
        proof {
            assert(segs_view(a@).len() != segs_view(b@).len());
        }
        return false;
    }
    let mut i: usize = 0;
    while i < a.len()
        invariant
            0 <= i <= a.len(),
            a.len() == b.len(),
            forall|j: int| 0 <= j < i ==> segs_view(a@)[j] == segs_view(b@)[j],
        decreases a.len() - i,
    {
        if !bytes_eq(&a[i], &b[i]) {
            proof {
                assert(segs_view(a@)[i as int] != segs_view(b@)[i as int]);
            }
            return false;
        }
        i = i + 1;
    }
    proof {
        assert(segs_view(a@) =~= segs_view(b@));
    }
    true
}

/// A copy of the bytes of `v` from `a` (inclusive) to `b` (exclusive).
pub fn subvec(v: &Vec<u8>, a: usize, b: usize) -> (r: Vec<u8>)
    requires
        a <= b <= v.len(),
    ensures
        r@ == v@.subrange(a as int, b as int),
{
    let mut r: Vec<u8> = Vec::new();
    let mut i: usize = a;
    while i < b
        invariant
            a <= i <= b <= v.len(),
            r@ == v@.subrange(a as int, i as int),
        decreases b - i,
    {
        r.push(v[i]);
        proof {
            assert(r@ =~= v@.subrange(a as int, i + 1));
        }
        i = i + 1;
    }
    r
}

/// The segments of `p` from byte position `i` on.
pub fn split_from(p: &Vec<u8>, i: usize) -> (r: Vec<Vec<u8>>)
    requires
        i <= p.len(),
    ensures
        segs_view(r@) == split_bytes(p@.skip(i as int)),
        r.len() >= 1,
    decreases p.len() - i,
{
    let ghost s = p@.skip(i as int);
    if i == p.len() {
        let mut r: Vec<Vec<u8>> = Vec::new();
        r.push(Vec::new());
        proof {
            assert(s.len() == 0);
            assert(segs_view(r@) =~~= split_bytes(s));
        }
        r
    } else if p[i] == 47u8 {
        let mut rest = split_from(p, i + 1);
        rest.insert(0, Vec::new());
        proof {
            assert(s[0] == slash());
            assert(s.drop_first() =~= p@.skip(i + 1));
            assert(segs_view(rest@) =~~= split_bytes(s));
        }
        rest
    } else {
        let mut rest = split_from(p, i + 1);
        let mut first = rest.remove(0);
        first.insert(0, p[i]);
        rest.insert(0, first);
        proof {
            assert(s[0] != slash());
            assert(s.drop_first() =~= p@.skip(i + 1));
            let r0 = split_bytes(s.drop_first());
            lemma_split_len(s.drop_first());
            assert(first@ =~= seq![s[0]] + r0[0]);
            assert(segs_view(rest@) =~~= r0.update(0, seq![s[0]] + r0[0]));
        }
        rest
    }
}

/// The segments from index `i` on, joined with separators.
pub fn join_from(segs: &Vec<Vec<u8>>, i: usize) -> (r: Vec<u8>)
    requires
        i <= segs.len(),
    ensures
        r@ == join_segs(segs_view(segs@).skip(i as int)),
    decreases segs.len() - i,
{
    let ghost tail = segs_view(segs@).skip(i as int);
    if i == segs.len() {
        let r: Vec<u8> = Vec::new();
        proof {
            assert(r@ =~= join_segs(tail));
        }
        r
    } else if i + 1 == segs.len() {
        let r = subvec(&segs[i], 0, segs[i].len());
        proof {
            assert(tail.len() == 1);
            assert(r@ =~= tail[0]);
        }
        r
    } else {
        let mut r = subvec(&segs[i], 0, segs[i].len());
        r.push(47u8);
        let mut rest = join_from(segs, i + 1);
        r.append(&mut rest);
        proof {
            assert(tail.len() > 1);
            assert(tail[0] == segs@[i as int]@);
            assert(tail.drop_first() =~= segs_view(segs@).skip(i + 1));
            assert(r@ =~= tail[0] + seq![slash()] + join_segs(tail.drop_first()));
        }
        r
    }
}

/// Whether `v` is the dot segment `.`.
pub fn is_dot(v: &Vec<u8>) -> (r: bool)
    ensures
        r == (v@ == dot_seg()),
{
    let r = v.len() == 1 && v[0] == 46u8;
    proof {
        if r {
            assert(v@ =~= dot_seg());
        }
    }
    r
}

/// Whether `v` is the parent segment `..`.
pub fn is_dotdot(v: &Vec<u8>) -> (r: bool)
    ensures
        r == (v@ == dotdot_seg()),
{
    let r = v.len() == 2 && v[0] == 46u8 && v[1] == 46u8;
    proof {
        if r {
            assert(v@ =~= dotdot_seg());
        }
    }
    r
}

/// Whether `v` is a well-formed path segment.
pub fn seg_wf(v: &Vec<u8>) -> (r: bool)
    ensures
        r == wf_seg(v@),
{
    if v.len() == 0 || is_dot(v) || is_dotdot(v) {
        return false;
    }
    let mut i: usize = 0;
    while i < v.len()
        invariant
            0 <= i <= v.len(),
            forall|j: int| 0 <= j < i ==> v@[j] != slash(),
        decreases v.len() - i,
    {
        if v[i] == 47u8 {
            return false;
        }
        i = i + 1;
    }
    true
}

/// Whether the byte string `p` is a well-formed absolute path.
pub fn is_valid_abs_path(p: &Vec<u8>) -> (r: bool)
    ensures
        r == valid_abs_path(p@),
{
    if p.len() == 0 || p[0] != 47u8 {
        return false;
    }
    let segs = split_from(p, 1);
    proof {
        assert(p@.skip(0) =~= p@);
        assert(p@.drop_first() =~= p@.skip(1));
        assert(split_bytes(p@) == seq![Seq::<u8>::empty()] + split_bytes(p@.skip(1)));
        assert(path_segs(p@) =~~= segs_view(segs@));
    }
    let mut i: usize = 0;
    while i < segs.len()
        invariant
            0 <= i <= segs.len(),
            forall|j: int| 0 <= j < i ==> wf_seg(#[trigger] segs_view(segs@)[j]),
            path_segs(p@) == segs_view(segs@),
        decreases segs.len() - i,
    {
        if !seg_wf(&segs[i]) {
            proof {
                assert(!wf_seg(path_segs(p@)[i as int]));
            }
            return false;
        }
        i = i + 1;
    }
    true
}

/// `name` with a known extension removed, if one is there.
pub fn strip_ext_exec(name: &Vec<u8>) -> (r: Vec<u8>)
    ensures
        r@ == strip_ext(name@),
{
    let n = name.len();
    if n > 4 && name[n - 4] == 46u8 && name[n - 3] == 116u8 && name[n - 2] == 115u8 && name[n - 1]
        == 120u8 {
        proof {
            assert(name@.skip(n - 4) =~= ext_tsx());
        }
        subvec(name, 0, n - 4)
    } else if n > 3 && name[n - 3] == 46u8 && name[n - 2] == 116u8 && name[n - 1] == 115u8 {
        proof {
            assert(name@.skip(n - 4) != ext_tsx() || !(name.len() > 4)) by {
                if n > 4 && name@.skip(n - 4) == ext_tsx() {
                    assert(name@.skip(n - 4)[3] == 120u8);
                }
            }
            assert(name@.skip(n - 3) =~= ext_ts());
        }
        subvec(name, 0, n - 3)
    } else {
        proof {
            if name.len() > 4 && name@.skip(n - 4) == ext_tsx() {
                assert(name@[n - 4] == ext_tsx()[0]);
                assert(name@[n - 3] == ext_tsx()[1]);
                assert(name@[n - 2] == ext_tsx()[2]);
                assert(name@[n - 1] == ext_tsx()[3]);
            }
            if name.len() > 3 && name@.skip(n - 3) == ext_ts() {
                assert(name@[n - 3] == ext_ts()[0]);
                assert(name@[n - 2] == ext_ts()[1]);
                assert(name@[n - 1] == ext_ts()[2]);
            }
        }
        subvec(name, 0, n)
    }
}

} // verus!
