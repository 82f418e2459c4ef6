//! Byte-string utilities shared by the pipeline: the export document, asset
//! paths and locale files are all handled as byte strings.

use vstd::prelude::*;

verus! {

/// `pat` occurs in `s` at position `at`.
pub open spec fn is_match_at(s: Seq<u8>, pat: Seq<u8>, at: int) -> bool {
    &&& 0 <= at
    &&& at + pat.len() <= s.len()
    &&& forall|k: int| 0 <= k < pat.len() ==> s[at + k] == pat[k]
}

/// `s` ends with `suffix`.
pub open spec fn ends_with(s: Seq<u8>, suffix: Seq<u8>) -> bool {
    is_match_at(s, suffix, s.len() - suffix.len())
}

/// Byte-for-byte equality of two slices.
pub fn bytes_eq(a: &[u8], b: &[u8]) -> (r: bool)
    ensures
        r <==> a@ == b@,
{
    if a.len() != b.len() {
        proof {
            assert(a@.len() != b@.len());
        }
        return false;
    }
    let mut i: usize = 0;
    while i < a.len()
        invariant
            i <= a.len(),
            a.len() == b.len(),
            forall|k: int| 0 <= k < i ==> a@[k] == b@[k],
        decreases a.len() - i,
    {
        if a[i] != b[i] {
            return false;
        }
        i = i + 1;
    }
    proof {
        assert(a@ =~= b@);
    }
    true
}

/// Whether `pat` occurs in `s` at position `at`.
pub fn match_at(s: &[u8], pat: &[u8], at: usize) -> (r: bool)
    ensures
        r <==> is_match_at(s@, pat@, at as int),
{
    if at > s.len() || pat.len() > s.len() - at {
        return false;
    }
    let mut k: usize = 0;
    while k < pat.len()
        invariant
            k <= pat.len(),
            at + pat.len() <= s.len(),
            forall|j: int| 0 <= j < k ==> s@[at + j] == pat@[j],
        decreases pat.len() - k,
    {
        if s[at + k] != pat[k] {
            return false;
        }
        k = k + 1;
    }
    true
}

/// Whether `s` ends with `suffix`.
pub fn ends_with_bytes(s: &[u8], suffix: &[u8]) -> (r: bool)
    ensures
        r <==> ends_with(s@, suffix@),
{
    if suffix.len() > s.len() {
        return false;
    }
    match_at(s, suffix, s.len() - suffix.len())
}

/// Position of the first occurrence of `b` in `s` at or after `start`.
pub fn find_byte(s: &[u8], start: usize, b: u8) -> (r: Option<usize>)
    ensures
        match r {
            Some(i) => {
                &&& start <= i < s@.len()
                &&& s@[i as int] == b
                &&& forall|k: int| start <= k < i ==> s@[k] != b
            },
            None => forall|k: int| start <= k < s@.len() ==> s@[k] != b,
        },
{
    let mut i: usize = start;
    while i < s.len()
        invariant
            start <= i,
            forall|k: int| start <= k < i ==> s@[k] != b,
        decreases s.len() - i,
    {
        if s[i] == b {
            return Some(i);
        }
        i = i + 1;
    }
    None
}

/// Appends all of `src` to `dst`.
pub fn append_bytes(dst: &mut Vec<u8>, src: &[u8])
    ensures
        final(dst)@ == old(dst)@ + src@,
{
    let mut i: usize = 0;
    while i < src.len()
        invariant
            i <= src.len(),
            dst@ == old(dst)@ + src@.take(i as int),
        decreases src.len() - i,
    {
        dst.push(src[i]);
        proof {
            assert(dst@ =~= old(dst)@ + src@.take(i + 1));
        }
        i = i + 1;
    }
    proof {
        assert(dst@ =~= old(dst)@ + src@);
    }
}

/// Replacement of every occurrence of `pat` in `s` by `rep`, scanning left
/// to right without overlap, as `str::replace` does. With an empty pattern
/// `s` is returned unchanged.
pub open spec fn replace_spec(s: Seq<u8>, pat: Seq<u8>, rep: Seq<u8>) -> Seq<u8>
    decreases s.len(),
{
    if pat.len() == 0 || s.len() == 0 {
        s
    } else if is_match_at(s, pat, 0) {
        rep + replace_spec(s.skip(pat.len() as int), pat, rep)
    } else {
        seq![s[0]] + replace_spec(s.skip(1), pat, rep)
    }
}

/// Replaces every occurrence of `pat` in `s` by `rep`, scanning left to
/// right without overlap.
pub fn replace_bytes(s: &[u8], pat: &[u8], rep: &[u8]) -> (out: Vec<u8>)
    requires
        pat@.len() > 0,
    ensures
        out@ == replace_spec(s@, pat@, rep@),
{
    let mut out: Vec<u8> = Vec::new();
    let mut i: usize = 0;
    proof {
        assert(s@.skip(0) =~= s@);
        assert(out@ + replace_spec(s@, pat@, rep@) =~= replace_spec(s@, pat@, rep@));
    }
    while i < s.len()
        invariant
            i <= s@.len(),
            pat@.len() > 0,
            out@ + replace_spec(s@.skip(i as int), pat@, rep@) == replace_spec(s@, pat@, rep@),
        decreases s@.len() - i,
    {
        let ghost pre = out@;
        let ghost tail = s@.skip(i as int);
        if match_at(s, pat, i) {
            proof {
                assert(is_match_at(tail, pat@, 0)) by {
                    assert(forall|k: int|
                        0 <= k < pat@.len() ==> tail[k] == s@[i + k] && s@[i + k] == pat@[k]);
                }
                assert(tail.skip(pat@.len() as int) =~= s@.skip(i + pat@.len()));
                assert(replace_spec(tail, pat@, rep@) == rep@ + replace_spec(
                    s@.skip(i + pat@.len()),
                    pat@,
                    rep@,
                ));
                assert((pre + rep@) + replace_spec(s@.skip(i + pat@.len()), pat@, rep@) =~= pre + (
                rep@ + replace_spec(s@.skip(i + pat@.len()), pat@, rep@)));
            }
            append_bytes(&mut out, rep);
            i = i + pat.len();
        } else {
            proof {
                assert(!is_match_at(tail, pat@, 0)) by {
                    if is_match_at(tail, pat@, 0) {
                        assert(forall|k: int|
                            0 <= k < pat@.len() ==> s@[i + k] == tail[k] && tail[k] == pat@[k]);
                    }
                }
                assert(tail.skip(1) =~= s@.skip(i + 1));
                assert(tail[0] == s@[i as int]);
                assert(replace_spec(tail, pat@, rep@) == seq![s@[i as int]] + replace_spec(
                    s@.skip(i + 1),
                    pat@,
                    rep@,
                ));
                assert((pre + seq![s@[i as int]]) + replace_spec(s@.skip(i + 1), pat@, rep@) =~= pre
                    + (seq![s@[i as int]] + replace_spec(s@.skip(i + 1), pat@, rep@)));
                assert(pre.push(s@[i as int]) =~= pre + seq![s@[i as int]]);
            }
            out.push(s[i]);
            i = i + 1;
        }
    }
    proof {
        assert(s@.skip(i as int) =~= Seq::<u8>::empty());
        assert(replace_spec(Seq::<u8>::empty(), pat@, rep@) == Seq::<u8>::empty());
        assert(out@ + Seq::<u8>::empty() =~= out@);
    }
    out
}

/// `base` and `rel` joined with the path separator.
pub fn join_path(base: &[u8], rel: &[u8]) -> (p: Vec<u8>)
    ensures
        p@ == base@ + seq![47u8] + rel@,
{
    let mut p: Vec<u8> = Vec::new();
    append_bytes(&mut p, base);
    p.push(47u8);
    append_bytes(&mut p, rel);
    proof {
        assert(p@ =~= base@ + seq![47u8] + rel@);
    }
    p
}

/// Copy of `s[from..to]` as a fresh vector.
pub fn subrange_vec(s: &[u8], from: usize, to: usize) -> (r: Vec<u8>)
    requires
        from <= to <= s@.len(),
    ensures
        r@ == s@.subrange(from as int, to as int),
{
    let mut out: Vec<u8> = Vec::new();
    let mut i: usize = from;
    while i < to
        invariant
            from <= i <= to <= s@.len(),
            out@ == s@.subrange(from as int, i as int),
        decreases to - i,
    {
        out.push(s[i]);
        proof {
            assert(out@ =~= s@.subrange(from as int, i + 1));
        }
        i = i + 1;
    }
    out
}

} // verus!
