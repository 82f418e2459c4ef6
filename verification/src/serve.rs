//! Values the serving tier hands the pipeline's assets out with: the query
//! parameters of its endpoints and the pure computations behind them — the
//! crop-rectangle clamping of the graphics endpoint and the bounded
//! namespace-prefix strip applied to a requested asset path. The I/O of
//! the endpoints themselves stays outside the library.

use crate::text::is_match_at;
use vstd::prelude::*;

verus! {

/// Query of the proxy endpoint: the URL to fetch on the caller's behalf.
pub struct ProxyQueryParams {
    pub url: String,
}

/// Path of the graphics endpoint: the requested asset path.
pub struct GraphicsPathParams {
    pub src: String,
}

/// Query of the graphics endpoint: a crop rectangle, each field defaulting
/// when absent.
pub struct GraphicsQueryParams {
    pub x: u32,
    pub y: u32,
    pub w: Option<u32>,
    pub h: Option<u32>,
}

/// The crop rectangle actually cut: the origin clamped into the image, the
/// extent defaulting to the whole image and clamped to what remains.
pub fn crop_rect(q: &GraphicsQueryParams, width: u32, height: u32) -> (r: (u32, u32, u32, u32))
    ensures
        r.0 == if q.x < width { q.x } else { width },
        r.1 == if q.y < height { q.y } else { height },
        ({
            let wanted_w = if q.w is Some { q.w.unwrap() } else { width };
            r.2 == if wanted_w < width - r.0 { wanted_w } else { (width - r.0) as u32 }
        }),
        ({
            let wanted_h = if q.h is Some { q.h.unwrap() } else { height };
            r.3 == if wanted_h < height - r.1 { wanted_h } else { (height - r.1) as u32 }
        }),
        r.0 + r.2 <= width,
        r.1 + r.3 <= height,
        width > 0 && height > 0 ==> ((r.0 == 0 && r.1 == 0 && r.2 == width && r.3 == height) <==> (
        q.x == 0 && q.y == 0 && (q.w is None || q.w.unwrap() >= width) && (q.h is None
            || q.h.unwrap() >= height))),
{
    let x = if q.x < width {
        q.x
    } else {
        width
    };
    let y = if q.y < height {
        q.y
    } else {
        height
    };
    let wanted_w = match q.w {
        Some(w) => w,
        None => width,
    };
    let wanted_h = match q.h {
        Some(h) => h,
        None => height,
    };
    let w = if wanted_w < width - x {
        wanted_w
    } else {
        width - x
    };
    let h = if wanted_h < height - y {
        wanted_h
    } else {
        height - y
    };
    (x, y, w, h)
}

/// Replacement of the first `n` occurrences of `pat` in `s` by `rep`,
/// scanning left to right without overlap, as `str::replacen` does.
pub open spec fn replacen_spec(s: Seq<u8>, pat: Seq<u8>, rep: Seq<u8>, n: nat) -> Seq<u8>
    decreases s.len(),
{
    if pat.len() == 0 || s.len() == 0 || n == 0 {
        s
    } else if is_match_at(s, pat, 0) {
        rep + replacen_spec(s.skip(pat.len() as int), pat, rep, (n - 1) as nat)
    } else {
        seq![s[0]] + replacen_spec(s.skip(1), pat, rep, n)
    }
}

/// Replaces the first `n` occurrences of `pat` in `s` by `rep`.
pub fn replacen_bytes(s: &[u8], pat: &[u8], rep: &[u8], n: usize) -> (out: Vec<u8>)
    requires
        pat@.len() > 0,
    ensures
        out@ == replacen_spec(s@, pat@, rep@, n as nat),
{
    let mut out: Vec<u8> = Vec::new();
    let mut i: usize = 0;
    let mut left: usize = n;
    proof {
        assert(s@.skip(0) =~= s@);
        assert(out@ + replacen_spec(s@, pat@, rep@, n as nat) =~= replacen_spec(
            s@,
            pat@,
            rep@,
            n as nat,
        ));
    }
    while i < s.len()
        invariant
            i <= s@.len(),
            pat@.len() > 0,
            left <= n,
            out@ + replacen_spec(s@.skip(i as int), pat@, rep@, left as nat) == replacen_spec(
                s@,
                pat@,
                rep@,
                n as nat,
            ),
        decreases s@.len() - i,
    {
        let ghost pre = out@;
        let ghost tail = s@.skip(i as int);
        if left > 0 && crate::text::match_at(s, pat, i) {
            proof {
                assert(is_match_at(tail, pat@, 0)) by {
                    assert(forall|k: int|
                        0 <= k < pat@.len() ==> tail[k] == s@[i + k] && s@[i + k] == pat@[k]);
                }
                assert(tail.skip(pat@.len() as int) =~= s@.skip(i + pat@.len()));
                assert(replacen_spec(tail, pat@, rep@, left as nat) == rep@ + replacen_spec(
                    s@.skip(i + pat@.len()),
                    pat@,
                    rep@,
                    (left - 1) as nat,
                ));
                assert((pre + rep@) + replacen_spec(
                    s@.skip(i + pat@.len()),
                    pat@,
                    rep@,
                    (left - 1) as nat,
                ) =~= pre + (rep@ + replacen_spec(
                    s@.skip(i + pat@.len()),
                    pat@,
                    rep@,
                    (left - 1) as nat,
                )));
            }
            crate::text::append_bytes(&mut out, rep);
            i = i + pat.len();
            left = left - 1;
        } else {
            proof {
                if left > 0 {
                    assert(!is_match_at(tail, pat@, 0)) by {
                        if is_match_at(tail, pat@, 0) {
                            assert(forall|k: int|
                                0 <= k < pat@.len() ==> s@[i + k] == tail[k] && tail[k] == pat@[k]);
                        }
                    }
                    assert(tail.skip(1) =~= s@.skip(i + 1));
                    assert(replacen_spec(tail, pat@, rep@, left as nat) == seq![s@[i as int]]
                        + replacen_spec(s@.skip(i + 1), pat@, rep@, left as nat));
                } else {
                    assert(replacen_spec(tail, pat@, rep@, 0nat) == tail);
                    assert(tail =~= seq![s@[i as int]] + s@.skip(i + 1));
                    assert(s@.skip(i + 1) =~= replacen_spec(s@.skip(i + 1), pat@, rep@, 0nat));
                }
                assert((pre + seq![s@[i as int]]) + replacen_spec(
                    s@.skip(i + 1),
                    pat@,
                    rep@,
                    left as nat,
                ) =~= pre + (seq![s@[i as int]] + replacen_spec(
                    s@.skip(i + 1),
                    pat@,
                    rep@,
                    left as nat,
                )));
                assert(pre.push(s@[i as int]) =~= pre + seq![s@[i as int]]);
            }
            out.push(s[i]);
            i = i + 1;
        }
    }
    proof {
        assert(s@.skip(i as int) =~= Seq::<u8>::empty());
        assert(replacen_spec(Seq::<u8>::empty(), pat@, rep@, left as nat) == Seq::<u8>::empty());
        assert(out@ + Seq::<u8>::empty() =~= out@);
    }
    out
}

/// "__", the namespace marker pair.
pub open spec fn underscores() -> Seq<u8> {
    seq![95u8, 95u8]
}

/// The requested asset path with its first two namespace markers removed,
/// so `__name__/...` becomes `name/...`.
pub fn strip_namespace_markers(src: &[u8]) -> (out: Vec<u8>)
    ensures
        out@ == replacen_spec(src@, underscores(), Seq::<u8>::empty(), 2),
{
    let mut pat: Vec<u8> = Vec::new();
    pat.push(95u8);
    pat.push(95u8);
    let rep: Vec<u8> = Vec::new();
    proof {
        assert(pat@ =~= underscores());
        assert(rep@ =~= Seq::<u8>::empty());
    }
    replacen_bytes(src, pat.as_slice(), rep.as_slice(), 2)
}

} // verus!
