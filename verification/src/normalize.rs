//! Power-of-two normalization: the external transcoder requires both image
//! dimensions to be exact powers of two, so a non-compliant image is
//! composited at the origin of a transparent canvas whose dimensions are
//! the next powers of two, re-encoded in its original format, and written
//! to a scratch location; a compliant image is used as it stands.

use crate::refs::slash;
use crate::text::append_bytes;
use vstd::prelude::*;

verus! {

/// Two to the `k`.
pub open spec fn pow2(k: nat) -> nat
    decreases k,
{
    if k == 0 {
        1nat
    } else {
        2 * pow2((k - 1) as nat)
    }
}

/// `x` is an exact power of two.
pub open spec fn is_pow2(x: u32) -> bool {
    exists|k: nat| x == pow2(k)
}

/// Powers of two are positive.
pub proof fn lemma_pow2_pos(k: nat)
    ensures
        pow2(k) >= 1,
    decreases k,
{
    if k > 0 {
        lemma_pow2_pos((k - 1) as nat);
    }
}

/// Powers of two grow with the exponent.
pub proof fn lemma_pow2_mono(a: nat, b: nat)
    requires
        a <= b,
    ensures
        pow2(a) <= pow2(b),
    decreases b,
{
    if a < b {
        lemma_pow2_mono(a, (b - 1) as nat);
        lemma_pow2_pos(a);
    }
}

/// Distinct powers of two differ by at least a factor of two.
pub proof fn lemma_pow2_gap(a: nat, b: nat)
    requires
        a < b,
    ensures
        2 * pow2(a) <= pow2(b),
{
    lemma_pow2_mono(a + 1, b);
}

/// There is exactly one power of two in `[x, 2x)`.
pub proof fn lemma_pow2_unique_in_range(x: u32, a: u32, b: u32)
    requires
        x >= 1,
        is_pow2(a),
        is_pow2(b),
        a >= x,
        b >= x,
        (a as int) < 2 * (x as int),
        (b as int) < 2 * (x as int),
    ensures
        a == b,
{
    let ka = choose|k: nat| a == pow2(k);
    let kb = choose|k: nat| b == pow2(k);
    if ka < kb {
        lemma_pow2_gap(ka, kb);
    }
    if kb < ka {
        lemma_pow2_gap(kb, ka);
    }
}

/// The smallest power of two at or above `x`; the bound on `x` keeps the
/// result within the machine word.
pub fn next_power_of_two(x: u32) -> (r: u32)
    requires
        1 <= x <= 0x8000_0000,
    ensures
        is_pow2(r),
        r >= x,
        (r as int) < 2 * (x as int),
{
    let mut p: u32 = 1;
    let ghost mut k: nat = 0;
    proof {
        assert(1nat == pow2(0));
    }
    while p < x
        invariant
            1 <= p,
            x <= 0x8000_0000,
            p == pow2(k),
            k == 0 || pow2((k - 1) as nat) < x,
        decreases 2 * (x as int) - p,
    {
        proof {
            assert(p <= x - 1);
            assert(2 * (p as int) <= 2 * (x as int) - 2);
            k = k + 1;
        }
        p = p * 2;
    }
    proof {
        assert(x <= p);
        if k == 0 {
            assert(p == 1);
            assert(x == 1);
        } else {
            assert(pow2((k - 1) as nat) < x);
            assert(p == 2 * pow2((k - 1) as nat));
        }
        assert(p == pow2(k));
    }
    p
}

/// Whether `x` is an exact power of two; an integer test, with no floating
/// point logarithm.
pub fn is_power_of_two(x: u32) -> (r: bool)
    ensures
        r <==> is_pow2(x),
{
    if x == 0 {
        proof {
            if is_pow2(0u32) {
                let k = choose|k: nat| 0u32 == pow2(k);
                lemma_pow2_pos(k);
            }
        }
        return false;
    }
    if x > 0x80000000 {
        proof {
            if is_pow2(x) {
                let k = choose|k: nat| x == pow2(k);
                reveal_with_fuel(pow2, 33);
                if k <= 31 {
                    lemma_pow2_mono(k, 31);
                    assert(pow2(31) == 0x80000000);
                } else {
                    lemma_pow2_mono(32, k);
                    assert(pow2(32) == 0x1_0000_0000);
                }
            }
        }
        return false;
    }
    let p = next_power_of_two(x);
    proof {
        if p != x && is_pow2(x) {
            lemma_pow2_unique_in_range(x, p, x);
        }
    }
    p == x
}

/// The canvas a non-compliant image is padded into.
pub struct CanvasPlan {
    pub width: u32,
    pub height: u32,
}

/// Decides whether an image of the given dimensions needs padding, and into
/// which canvas: `None` exactly when both dimensions are already powers of
/// two, else the smallest compliant canvas that holds the image.
pub fn normalization_plan(w: u32, h: u32) -> (r: Option<CanvasPlan>)
    requires
        1 <= w <= 0x8000_0000,
        1 <= h <= 0x8000_0000,
    ensures
        r is None <==> (is_pow2(w) && is_pow2(h)),
        r matches Some(p) ==> {
            &&& is_pow2(p.width)
            &&& p.width >= w
            &&& (p.width as int) < 2 * (w as int)
            &&& is_pow2(p.height)
            &&& p.height >= h
            &&& (p.height as int) < 2 * (h as int)
        },
{
    let wp = is_power_of_two(w);
    let hp = is_power_of_two(h);
    if wp && hp {
        None
    } else {
        Some(CanvasPlan { width: next_power_of_two(w), height: next_power_of_two(h) })
    }
}

/// What the image library produces when asked to pad `data` onto a
/// transparent canvas of the given dimensions: a function of the arguments
/// alone, named rather than restated.
pub uninterp spec fn padded_image_of(data: Seq<u8>, width: u32, height: u32) -> Option<Seq<u8>>;

/// Relies on image::guess_format, image::load_from_memory_with_format,
/// image::DynamicImage::new_rgba8, image::imageops::replace and
/// image::DynamicImage::write_to: decodes `data`, composites it at the
/// origin of a transparent canvas of the given dimensions, and re-encodes
/// it in its original format. The result depends on the arguments alone.
/// The bound keeps the canvas's byte length (four bytes per pixel) within
/// the machine word, inside which ImageBuffer::new allocates rather than
/// panics.
#[verifier::external_body]
fn pad_image_bytes(data: &Vec<u8>, width: u32, height: u32) -> (r: Option<Vec<u8>>)
    requires
        4 * (width as int) * (height as int) <= usize::MAX as int,
    ensures
        match r {
            Some(b) => padded_image_of(data@, width, height) == Some(b@),
            None => padded_image_of(data@, width, height) is None,
        },
{
    let format = match image::guess_format(data.as_slice()) {
        Ok(f) => f,
        Err(_) => return None,
    };
    let img = match image::load_from_memory_with_format(data.as_slice(), format) {
        Ok(i) => i,
        Err(_) => return None,
    };
    let mut canvas = image::DynamicImage::new_rgba8(width, height);
    image::imageops::replace(&mut canvas, &img, 0, 0);
    let mut cursor = std::io::Cursor::new(Vec::new());
    match canvas.write_to(&mut cursor, format) {
        Ok(()) => Some(cursor.into_inner()),
        Err(_) => None,
    }
}

/// The outcome of normalizing one image.
pub enum NormOutcome {
    /// Both dimensions already powers of two: the caller keeps the original
    /// path and the image is not touched.
    Unchanged,
    /// The image was padded into the given canvas; the caller writes the
    /// bytes to the scratch path and feeds that to the transcoder.
    Padded { bytes: Vec<u8>, width: u32, height: u32 },
    /// The padded image could not be produced — the data does not decode
    /// or re-encode, or the canvas would not even fit in memory; the item
    /// fails this run and is retried on the next one.
    Failed,
}

/// Normalizes one image, given its raw bytes and dimensions: the identity
/// for compliant dimensions, else a padded copy on the smallest compliant
/// canvas.
pub fn normalize_image(data: &Vec<u8>, w: u32, h: u32) -> (r: NormOutcome)
    requires
        1 <= w <= 0x8000_0000,
        1 <= h <= 0x8000_0000,
    ensures
        r is Unchanged <==> (is_pow2(w) && is_pow2(h)),
        r matches NormOutcome::Padded { bytes, width, height } ==> {
            &&& is_pow2(width)
            &&& width >= w
            &&& (width as int) < 2 * (w as int)
            &&& is_pow2(height)
            &&& height >= h
            &&& (height as int) < 2 * (h as int)
            &&& padded_image_of(data@, width, height) == Some(bytes@)
        },
        r is Failed ==> !(is_pow2(w) && is_pow2(h)) && exists|cw: u32, ch: u32|
            {
                &&& is_pow2(cw)
                &&& cw >= w
                &&& (cw as int) < 2 * (w as int)
                &&& is_pow2(ch)
                &&& ch >= h
                &&& (ch as int) < 2 * (h as int)
                &&& (padded_image_of(data@, cw, ch) is None || 4 * (cw as int) * (ch as int)
                    > usize::MAX as int)
            },
{
    match normalization_plan(w, h) {
        None => NormOutcome::Unchanged,
        Some(plan) => {
            proof {
                assert((plan.width as int) * (plan.height as int) <= 0xFFFF_FFFF * 0xFFFF_FFFF)
                    by (nonlinear_arith)
                    requires
                        0 <= plan.width as int <= 0xFFFF_FFFF,
                        0 <= plan.height as int <= 0xFFFF_FFFF,
                ;
            }
            let pixels: u64 = (plan.width as u64) * (plan.height as u64);
            if pixels > (usize::MAX / 4) as u64 {
                proof {
                    assert(4 * (plan.width as int) * (plan.height as int) > usize::MAX as int) by {
                        assert(pixels as int == (plan.width as int) * (plan.height as int));
                        assert(4 * (plan.width as int) * (plan.height as int) == 4 * (
                        pixels as int)) by (nonlinear_arith)
                            requires
                                pixels as int == (plan.width as int) * (plan.height as int),
                        ;
                        assert(pixels as int >= (usize::MAX as int) / 4 + 1);
                        assert(4 * ((usize::MAX as int) / 4) + 3 >= usize::MAX as int);
                    }
                    assert({
                        &&& is_pow2(plan.width)
                        &&& plan.width >= w
                        &&& (plan.width as int) < 2 * (w as int)
                        &&& is_pow2(plan.height)
                        &&& plan.height >= h
                        &&& (plan.height as int) < 2 * (h as int)
                        &&& 4 * (plan.width as int) * (plan.height as int) > usize::MAX as int
                    });
                }
                NormOutcome::Failed
            } else {
                proof {
                    assert(4 * (plan.width as int) * (plan.height as int) <= usize::MAX as int) by {
                        assert(pixels as int == (plan.width as int) * (plan.height as int));
                        assert(4 * (plan.width as int) * (plan.height as int) == 4 * (
                        pixels as int)) by (nonlinear_arith)
                            requires
                                pixels as int == (plan.width as int) * (plan.height as int),
                        ;
                        assert(pixels as int <= (usize::MAX as int) / 4);
                        assert(4 * ((usize::MAX as int) / 4) <= usize::MAX as int);
                    }
                }
                match pad_image_bytes(data, plan.width, plan.height) {
                    Some(bytes) => NormOutcome::Padded {
                        bytes,
                        width: plan.width,
                        height: plan.height,
                    },
                    None => {
                        proof {
                            assert({
                                &&& is_pow2(plan.width)
                                &&& plan.width >= w
                                &&& (plan.width as int) < 2 * (w as int)
                                &&& is_pow2(plan.height)
                                &&& plan.height >= h
                                &&& (plan.height as int) < 2 * (h as int)
                                &&& padded_image_of(data@, plan.width, plan.height) is None
                            });
                        }
                        NormOutcome::Failed
                    },
                }
            }
        },
    }
}

/// The scratch location for a padded copy: the scratch directory with the
/// input path appended, so scratch paths of distinct inputs never collide.
pub fn scratch_path(tmp_dir: &[u8], input: &[u8]) -> (p: Vec<u8>)
    ensures
        p@ == tmp_dir@ + slash() + input@,
{
    let mut p: Vec<u8> = Vec::new();
    append_bytes(&mut p, tmp_dir);
    p.push(47u8);
    append_bytes(&mut p, input);
    proof {
        assert(p@ =~= tmp_dir@ + slash() + input@);
    }
    p
}

} // verus!
