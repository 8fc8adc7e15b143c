use vstd::prelude::*;

use vstd::pervasive::VecAdditionalExecFns;
use crate::codec::{luminance_spec, pack_spec, Pixel, MAX_PIXELS};

verus! {

/// The number of pixels with luminance strictly below `t`.
pub open spec fn cnt_below(image: Seq<Pixel>, t: int) -> int
    decreases image.len(),
{
    if image.len() == 0 {
        0
    } else {
        cnt_below(image.drop_last(), t) + if luminance_spec(image.last()) < t {
            1int
        } else {
            0int
        }
    }
}

/// The sum of the luminances strictly below `t`.
pub open spec fn sum_below(image: Seq<Pixel>, t: int) -> int
    decreases image.len(),
{
    if image.len() == 0 {
        0
    } else {
        sum_below(image.drop_last(), t) + if luminance_spec(image.last()) < t {
            luminance_spec(image.last()) as int
        } else {
            0int
        }
    }
}

/// The number of pixels with luminance exactly `v`.
pub open spec fn count_at(image: Seq<Pixel>, v: int) -> int
    decreases image.len(),
{
    if image.len() == 0 {
        0
    } else {
        count_at(image.drop_last(), v) + if luminance_spec(image.last()) == v {
            1int
        } else {
            0int
        }
    }
}

/// The sum of all luminances of the image.
pub open spec fn total_sum(image: Seq<Pixel>) -> int {
    sum_below(image, 256)
}

/// The numerator of the inter-class variance at threshold `t` (classes are
/// luminance below `t` and luminance at least `t`), with the common
/// positive factors cleared: the square of
/// `sum_below * n - total * cnt_below`.
pub open spec fn score_num(image: Seq<Pixel>, t: int) -> int {
    let d = sum_below(image, t) * image.len() - total_sum(image) * cnt_below(image, t);
    d * d
}

/// The denominator of the inter-class variance at threshold `t`: the
/// product of the two class sizes.
pub open spec fn score_den(image: Seq<Pixel>, t: int) -> int {
    cnt_below(image, t) * (image.len() - cnt_below(image, t))
}

/// Whether the non-negative fraction `a / b` exceeds `c / d`, where a
/// non-positive denominator stands for the value zero.
pub open spec fn frac_gt(a: int, b: int, c: int, d: int) -> bool {
    if b <= 0 {
        false
    } else if d <= 0 {
        a > 0
    } else {
        a * d > c * b
    }
}

/// Whether the inter-class variance at `t1` strictly exceeds the one at
/// `t2`.  A threshold with an empty class has variance zero.
pub open spec fn score_exceeds(image: Seq<Pixel>, t1: int, t2: int) -> bool {
    frac_gt(score_num(image, t1), score_den(image, t1), score_num(image, t2), score_den(image, t2))
}

/// Class counters are bounded by the image size, and class sums by 255
/// per counted pixel.
pub proof fn lemma_below_bounds(image: Seq<Pixel>, t: int)
    ensures
        0 <= cnt_below(image, t) <= image.len(),
        0 <= sum_below(image, t) <= 255 * cnt_below(image, t),
        0 <= count_at(image, t) <= image.len(),
    decreases image.len(),
{
    if image.len() > 0 {
        lemma_below_bounds(image.drop_last(), t);
    }
}

/// No luminance lies below zero, and every luminance lies below 256.
pub proof fn lemma_below_ends(image: Seq<Pixel>)
    ensures
        cnt_below(image, 0) == 0,
        sum_below(image, 0) == 0,
        cnt_below(image, 256) == image.len(),
    decreases image.len(),
{
    if image.len() > 0 {
        lemma_below_ends(image.drop_last());
    }
}

/// Stepping the threshold by one adds exactly the pixels at that
/// luminance to the lower class.
pub proof fn lemma_below_step(image: Seq<Pixel>, t: int)
    ensures
        cnt_below(image, t + 1) == cnt_below(image, t) + count_at(image, t),
        sum_below(image, t + 1) == sum_below(image, t) + t * count_at(image, t),
    decreases image.len(),
{
    if image.len() == 0 {
        assert(t * 0 == 0) by (nonlinear_arith);
    } else {
        lemma_below_step(image.drop_last(), t);
        let dl = image.drop_last();
        assert(t * (count_at(dl, t) + 1) == t * count_at(dl, t) + t) by (nonlinear_arith);
    }
}

/// Compares two non-negative fractions through quotient and remainder:
/// the cross-product order agrees with comparing quotients first and then
/// cross-comparing remainders.
pub proof fn lemma_frac_cmp(a: int, b: int, c: int, d: int)
    requires
        a >= 0,
        c >= 0,
        b > 0,
        d > 0,
    ensures
        (a * d > c * b) <==> (a / b > c / d || (a / b == c / d && (a % b) * d > (c % d) * b)),
{
    let q1 = a / b;
    let r1 = a % b;
    let q2 = c / d;
    let r2 = c % d;
    vstd::arithmetic::div_mod::lemma_fundamental_div_mod(a, b);
    vstd::arithmetic::div_mod::lemma_fundamental_div_mod(c, d);
    vstd::arithmetic::div_mod::lemma_mod_division_less_than_divisor(a, b);
    vstd::arithmetic::div_mod::lemma_mod_division_less_than_divisor(c, d);
    assert(a * d == q1 * (b * d) + r1 * d) by (nonlinear_arith)
        requires
            a == b * q1 + r1,
    ;
    assert(c * b == q2 * (b * d) + r2 * b) by (nonlinear_arith)
        requires
            c == d * q2 + r2,
    ;
    assert(0 <= r1 * d < b * d) by (nonlinear_arith)
        requires
            0 <= r1 < b,
            d > 0,
    ;
    assert(0 <= r2 * b < b * d) by (nonlinear_arith)
        requires
            0 <= r2 < d,
            b > 0,
    ;
    if q1 > q2 {
        assert((q1 - q2) * (b * d) >= b * d) by (nonlinear_arith)
            requires
                q1 - q2 >= 1,
                b * d > 0,
        ;
        assert(q1 * (b * d) - q2 * (b * d) == (q1 - q2) * (b * d)) by (nonlinear_arith);
    } else if q1 < q2 {
        assert((q2 - q1) * (b * d) >= b * d) by (nonlinear_arith)
            requires
                q2 - q1 >= 1,
                b * d > 0,
        ;
        assert(q2 * (b * d) - q1 * (b * d) == (q2 - q1) * (b * d)) by (nonlinear_arith);
    }
}

/// Chains the fraction order: if the third fraction exceeds the second
/// and the first does not, the third strictly exceeds the first.
pub proof fn lemma_frac_chain(a1: int, b1: int, a2: int, b2: int, a3: int, b3: int)
    requires
        a1 >= 0,
        a2 >= 0,
        a3 >= 0,
        frac_gt(a3, b3, a2, b2),
        !frac_gt(a1, b1, a2, b2),
    ensures
        frac_gt(a3, b3, a1, b1),
        !frac_gt(a1, b1, a3, b3),
{
    assert(b3 > 0);
    if b2 <= 0 {
        assert(a3 > 0);
        if b1 > 0 {
            assert(a1 == 0);
            assert(a3 * b1 > 0) by (nonlinear_arith)
                requires
                    a3 > 0,
                    b1 > 0,
            ;
            assert(a1 * b3 == 0) by (nonlinear_arith)
                requires
                    a1 == 0,
            ;
        }
    } else {
        assert(a3 * b2 > a2 * b3);
        assert(a3 * b2 > 0) by (nonlinear_arith)
            requires
                a3 * b2 > a2 * b3,
                a2 >= 0,
                b3 > 0,
        ;
        assert(a3 > 0) by (nonlinear_arith)
            requires
                a3 * b2 > 0,
                b2 > 0,
        ;
        if b1 <= 0 {
        } else {
            assert(a1 * b2 <= a2 * b1);
            assert(a3 * b1 > a1 * b3) by (nonlinear_arith)
                requires
                    b1 > 0,
                    b2 > 0,
                    b3 > 0,
                    a1 >= 0,
                    a2 >= 0,
                    a3 >= 0,
                    a1 * b2 <= a2 * b1,
                    a3 * b2 > a2 * b3,
            ;
        }
    }
}

/// Compares two scaled scores exactly: returns whether `n1 / d1` strictly
/// exceeds `n2 / d2` in the fraction order, without overflowing, by
/// comparing quotients first and remainders after.
fn score_cmp_gt(n1: u128, d1: u128, n2: u128, d2: u128) -> (r: bool)
    requires
        d1 <= 0x40000000000000,
        d2 <= 0x40000000000000,
    ensures
        r == frac_gt(n1 as int, d1 as int, n2 as int, d2 as int),
{
    if d1 == 0 {
        false
    } else if d2 == 0 {
        n1 > 0
    } else {
        let q1 = n1 / d1;
        let r1 = n1 % d1;
        let q2 = n2 / d2;
        let r2 = n2 % d2;
        proof {
            lemma_frac_cmp(n1 as int, d1 as int, n2 as int, d2 as int);
            assert(r1 * d2 < 0x40000000000000 * 0x40000000000000) by (nonlinear_arith)
                requires
                    0 <= r1 < 0x40000000000000,
                    0 <= d2 <= 0x40000000000000,
            ;
            assert(r2 * d1 < 0x40000000000000 * 0x40000000000000) by (nonlinear_arith)
                requires
                    0 <= r2 < 0x40000000000000,
                    0 <= d1 <= 0x40000000000000,
            ;
        }
        q1 > q2 || (q1 == q2 && r1 * d2 > r2 * d1)
    }
}

/// Otsu's automatic threshold: the value `t` in `0..=255` whose two
/// luminance classes (below `t`, and `t` or above) have the greatest
/// inter-class variance, the smallest such `t` on ties.  An image with
/// zero dynamic range has every variance zero, so the fallback result is
/// zero.
#[verifier::loop_isolation(false)]
#[verifier::rlimit(100)]
pub fn otsu_threshold(image: &Vec<Pixel>) -> (t: u8)
    requires
        image@.len() <= MAX_PIXELS,
    ensures
        forall|t2: int| 0 <= t2 < 256 ==> !score_exceeds(image@, t2, t as int),
        forall|t2: int| 0 <= t2 < t as int ==> score_exceeds(image@, t as int, t2),
{
    let ghost gimg = image@;
    let n = image.len();
    let mut hist: Vec<u64> = Vec::new();
    for v in 0..256usize
        invariant
            hist@.len() == v,
            forall|j: int| 0 <= j < v ==> hist@[j] == 0,
    {
        hist.push(0);
    }
    proof {
        assert forall|v: int| 0 <= v < 256 implies hist@[v] == count_at(gimg.take(0), v) by {
            assert(gimg.take(0) =~= Seq::<Pixel>::empty());
        }
    }
    for k in 0..n
        invariant
            hist@.len() == 256,
            forall|v: int| 0 <= v < 256 ==> hist@[v] == count_at(gimg.take(k as int), v),
    {
        let l = crate::codec::luminance(&image[k]) as usize;
        proof {
            lemma_below_bounds(gimg.take(k as int), l as int);
            assert(gimg.take(k as int).len() <= MAX_PIXELS);
        }
        let c = hist[l];
        hist.set(l, c + 1);
        proof {
            assert(gimg.take(k + 1).drop_last() =~= gimg.take(k as int));
            assert(gimg.take(k + 1).last() == gimg[k as int]);
            assert forall|v: int| 0 <= v < 256 implies hist@[v] == count_at(gimg.take(k + 1), v) by {
                assert(count_at(gimg.take(k + 1), v) == count_at(gimg.take(k as int), v) + if luminance_spec(gimg[k as int]) == v {
                    1int
                } else {
                    0int
                });
            }
        }
    }
    proof {
        assert(gimg.take(n as int) =~= gimg);
        lemma_below_ends(gimg);
    }
    let mut total: u64 = 0;
    for v in 0..256usize
        invariant
            total == sum_below(gimg, v as int),
            hist@.len() == 256,
            forall|j: int| 0 <= j < 256 ==> hist@[j] == count_at(gimg, j),
    {
        proof {
            lemma_below_bounds(gimg, v as int);
            lemma_below_step(gimg, v as int);
            assert((v as int) * count_at(gimg, v as int) <= 255 * (MAX_PIXELS as int))
                by (nonlinear_arith)
                requires
                    0 <= v as int <= 255,
                    0 <= count_at(gimg, v as int) <= MAX_PIXELS,
            ;
            assert(sum_below(gimg, v as int) <= 255 * (MAX_PIXELS as int)) by {
                assert(255 * cnt_below(gimg, v as int) <= 255 * (MAX_PIXELS as int));
            }
        }
        let hv = hist[v];
        total = total + (v as u64) * hv;
        proof {
            assert(total == sum_below(gimg, v as int + 1));
        }
    }
    let mut best: usize = 0;
    let mut bnum: u128 = 0;
    let mut bden: u128 = 0;
    let mut c0: u64 = 0;
    let mut s0: u64 = 0;
    proof {
        lemma_below_ends(gimg);
        assert(score_num(gimg, 0) == 0) by {
            assert(sum_below(gimg, 0) * gimg.len() == 0) by (nonlinear_arith)
                requires
                    sum_below(gimg, 0) == 0,
            ;
            assert(total_sum(gimg) * cnt_below(gimg, 0) == 0) by (nonlinear_arith)
                requires
                    cnt_below(gimg, 0) == 0,
            ;
        }
        assert(score_den(gimg, 0) == 0) by {
            assert(cnt_below(gimg, 0) * (gimg.len() - cnt_below(gimg, 0)) == 0) by (nonlinear_arith)
                requires
                    cnt_below(gimg, 0) == 0,
            ;
        }
    }
    for t in 0..256usize
        invariant
            c0 == cnt_below(gimg, t as int),
            s0 == sum_below(gimg, t as int),
            best < 256,
            (best as int) < t as int || (best == 0 && t == 0),
            bnum == score_num(gimg, best as int),
            bden == score_den(gimg, best as int),
            bden <= 0x10000000000000,
            total == total_sum(gimg),
            hist@.len() == 256,
            forall|j: int| 0 <= j < 256 ==> hist@[j] == count_at(gimg, j),
            forall|t2: int| 0 <= t2 < t as int ==> !score_exceeds(gimg, t2, best as int),
            forall|t2: int| 0 <= t2 < best as int ==> score_exceeds(gimg, best as int, t2),
    {
        proof {
            lemma_below_bounds(gimg, t as int);
            assert(s0 as int <= 255 * (MAX_PIXELS as int)) by {
                assert(255 * cnt_below(gimg, t as int) <= 255 * (MAX_PIXELS as int));
            }
            assert((s0 as int) * (n as int) <= (255 * (MAX_PIXELS as int)) * (MAX_PIXELS as int))
                by (nonlinear_arith)
                requires
                    0 <= s0 as int <= 255 * (MAX_PIXELS as int),
                    0 <= n as int <= MAX_PIXELS as int,
            ;
            assert(total <= 255 * (MAX_PIXELS as u64)) by {
                lemma_below_bounds(gimg, 256);
                lemma_below_ends(gimg);
                assert(255 * cnt_below(gimg, 256) <= 255 * (MAX_PIXELS as int));
            }
            assert((total as int) * (c0 as int) <= (255 * (MAX_PIXELS as int)) * (
            MAX_PIXELS as int)) by (nonlinear_arith)
                requires
                    0 <= total as int <= 255 * (MAX_PIXELS as int),
                    0 <= c0 as int <= MAX_PIXELS as int,
            ;
        }
        let diff: i128 = (s0 as i128) * (n as u64 as i128) - (total as i128) * (c0 as i128);
        proof {
            let bb = (255 * (MAX_PIXELS as int)) * (MAX_PIXELS as int);
            assert(diff * diff <= (2 * bb) * (2 * bb)) by (nonlinear_arith)
                requires
                    -(2 * bb) <= diff as int <= 2 * bb,
            ;
            assert(diff * diff >= 0) by (nonlinear_arith);
        }
        let num: u128 = (diff * diff) as u128;
        proof {
            assert((c0 as int) * ((n as int) - (c0 as int)) <= (MAX_PIXELS as int) * (
            MAX_PIXELS as int)) by (nonlinear_arith)
                requires
                    0 <= c0 as int <= n as int,
                    n as int <= MAX_PIXELS as int,
            ;
        }
        let den: u128 = (c0 as u128) * ((n as u64 - c0) as u128);
        proof {
            assert(num == score_num(gimg, t as int));
            assert(den == score_den(gimg, t as int));
        }
        if score_cmp_gt(num, den, bnum, bden) {
            proof {
                assert forall|t2: int| 0 <= t2 < t as int implies !score_exceeds(
                    gimg,
                    t2,
                    t as int,
                ) && score_exceeds(gimg, t as int, t2) by {
                    assert(!score_exceeds(gimg, t2, best as int));
                    let d2 = sum_below(gimg, t2) * gimg.len() - total_sum(gimg) * cnt_below(
                        gimg,
                        t2,
                    );
                    assert(score_num(gimg, t2) >= 0) by (nonlinear_arith)
                        requires
                            score_num(gimg, t2) == d2 * d2,
                    ;
                    lemma_frac_chain(
                        score_num(gimg, t2),
                        score_den(gimg, t2),
                        bnum as int,
                        bden as int,
                        num as int,
                        den as int,
                    );
                }
            }
            best = t;
            bnum = num;
            bden = den;
        } else {
            proof {
                assert(!score_exceeds(gimg, t as int, best as int));
            }
        }
        let hv = hist[t];
        proof {
            lemma_below_step(gimg, t as int);
            assert((t as int) * count_at(gimg, t as int) <= 255 * (MAX_PIXELS as int))
                by (nonlinear_arith)
                requires
                    0 <= t as int <= 255,
                    0 <= count_at(gimg, t as int) <= MAX_PIXELS as int,
            ;
            assert(sum_below(gimg, t as int) <= 255 * (MAX_PIXELS as int)) by {
                assert(255 * cnt_below(gimg, t as int) <= 255 * (MAX_PIXELS as int));
            }
        }
        c0 = c0 + hv;
        s0 = s0 + (t as u64) * hv;
    }
    best as u8
}

/// The packed color `binarize` produces for one pixel: pure white where
/// the luminance reaches the threshold, pure black below it.
pub open spec fn binarize_pixel_spec(p: Pixel, threshold: u8) -> u32 {
    if luminance_spec(p) >= threshold {
        pack_spec(255, 255, 255)
    } else {
        pack_spec(0, 0, 0)
    }
}

/// The packed color `limiarize` produces for one pixel: the pixel itself
/// (packed red, green, blue from the blue, green, red storage order) where
/// the luminance reaches the threshold, pure black below it.
pub open spec fn limiarize_pixel_spec(p: Pixel, threshold: u8) -> u32 {
    if luminance_spec(p) >= threshold {
        pack_spec(p[2], p[1], p[0])
    } else {
        pack_spec(0, 0, 0)
    }
}

/// Binarization with a fixed threshold: each pixel maps to pure white
/// where its luminance reaches the threshold, else pure black.
pub fn binarize(image: Vec<Pixel>, threshold: u8) -> (out: Vec<u32>)
    ensures
        out@.len() == image@.len(),
        forall|i: int|
            0 <= i < image@.len() ==> out@[i] == binarize_pixel_spec(image@[i], threshold),
{
    let mut new_image: Vec<u32> = Vec::new();
    let n = image.len();
    for k in 0..n
        invariant
            n == image@.len(),
            new_image@.len() == k,
            forall|i: int|
                0 <= i < k ==> new_image@[i] == binarize_pixel_spec(image@[i], threshold),
    {
        let l = crate::codec::luminance(&image[k]);
        if l >= threshold {
            new_image.push(crate::codec::get_color_integer_from_gray(255));
        } else {
            new_image.push(crate::codec::get_color_integer_from_gray(0));
        }
    }
    new_image
}

/// Thresholding that keeps the original color: each pixel maps to itself
/// (packed) where its luminance reaches the threshold, else pure black.
pub fn limiarize(image: Vec<Pixel>, threshold: u8) -> (out: Vec<u32>)
    ensures
        out@.len() == image@.len(),
        forall|i: int|
            0 <= i < image@.len() ==> out@[i] == limiarize_pixel_spec(image@[i], threshold),
{
    let mut new_image: Vec<u32> = Vec::new();
    let n = image.len();
    for k in 0..n
        invariant
            n == image@.len(),
            new_image@.len() == k,
            forall|i: int|
                0 <= i < k ==> new_image@[i] == limiarize_pixel_spec(image@[i], threshold),
    {
        let p = image[k];
        let l = crate::codec::luminance(&p);
        if l >= threshold {
            new_image.push(crate::codec::get_color_integer_from_rgb(p[2], p[1], p[0]));
        } else {
            new_image.push(crate::codec::get_color_integer_from_gray(0));
        }
    }
    new_image
}

/// Law: for every pixel and every threshold, binarization yields one of
/// exactly two packed colors — pure black or pure white.
pub proof fn lemma_binarize_two_colors(p: Pixel, threshold: u8)
    ensures
        binarize_pixel_spec(p, threshold) == pack_spec(255, 255, 255) || binarize_pixel_spec(
            p,
            threshold,
        ) == pack_spec(0, 0, 0),
{
}

} // verus!
