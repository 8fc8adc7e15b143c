use vstd::prelude::*;

use crate::codec::{pack_spec, Pixel, MAX_PIXELS};
use crate::error::EngineError;

verus! {

/// The fixed-point unit for kernel weights: a weight of one is stored as
/// `KERNEL_ONE`.  Callers scale fractional weights by this factor.
pub const KERNEL_ONE: i64 = 65536;

/// The largest magnitude a single fixed-point kernel weight may have.
pub const KERNEL_WEIGHT_LIMIT: i64 = 1099511627776;

/// The largest kernel length (number of weights) `convolve` accepts.
pub const MAX_KERNEL_LEN: usize = 65536;

/// Truncating division toward zero, for a positive divisor: the rule the
/// engine uses when a fixed-point accumulation is scaled back down.
pub open spec fn tdiv(a: int, b: int) -> int {
    if a >= 0 {
        a / b
    } else {
        -((-a) / b)
    }
}

/// Clamps a value to the 8-bit channel range.
pub open spec fn clamp8(v: int) -> u8 {
    if v < 0 {
        0u8
    } else if v > 255 {
        255u8
    } else {
        v as u8
    }
}

/// Whether `s` is the side of a square kernel of length `klen`.
pub open spec fn is_side(s: int, klen: int) -> bool {
    0 <= s && s * s == klen
}

/// Whether a kernel of length `klen` is a perfect square whose window fits
/// inside a `w` by `h` image.
pub open spec fn kernel_fits(klen: int, w: int, h: int) -> bool {
    exists|s: int| #[trigger] is_side(s, klen) && s <= w && s <= h
}

/// Whether every kernel weight lies within the accepted magnitude bound.
pub open spec fn kernel_in_range(kernel: Seq<i64>) -> bool {
    forall|i: int|
        0 <= i < kernel.len() ==> -KERNEL_WEIGHT_LIMIT <= #[trigger] kernel[i]
            <= KERNEL_WEIGHT_LIMIT
}

/// One convolution term: weight `i` of the kernel times the sample it
/// overlays at output position `(x, y)`.  Output channel `ch` reads the
/// stored channels in reverse order (channel 0 reads stored index 2), so
/// the packed result comes out red, green, blue from the blue, green, red
/// storage order.
pub open spec fn conv_term(
    image: Seq<Pixel>,
    kernel: Seq<i64>,
    side: int,
    w: int,
    x: int,
    y: int,
    ch: int,
    i: int,
) -> int {
    let half = side / 2;
    let xx = x + (i % side) - half;
    let yy = y + (i / side) - half;
    (kernel[i] as int) * (image[yy * w + xx][2 - ch] as int)
}

/// The sum of the first `n` convolution terms.
pub open spec fn conv_acc(
    image: Seq<Pixel>,
    kernel: Seq<i64>,
    side: int,
    w: int,
    x: int,
    y: int,
    ch: int,
    n: int,
) -> int
    decreases n,
{
    if n <= 0 {
        0
    } else {
        conv_acc(image, kernel, side, w, x, y, ch, n - 1) + conv_term(
            image,
            kernel,
            side,
            w,
            x,
            y,
            ch,
            n - 1,
        )
    }
}

/// One output channel of the convolution: the full fixed-point sum, scaled
/// back by `KERNEL_ONE` with truncation, clamped to the 8-bit range.
pub open spec fn conv_chan(
    image: Seq<Pixel>,
    kernel: Seq<i64>,
    side: int,
    w: int,
    x: int,
    y: int,
    ch: int,
) -> u8 {
    clamp8(tdiv(conv_acc(image, kernel, side, w, x, y, ch, side * side), KERNEL_ONE as int))
}

/// One output pixel of the convolution, packed red, green, blue.
pub open spec fn conv_pixel(
    image: Seq<Pixel>,
    kernel: Seq<i64>,
    side: int,
    w: int,
    x: int,
    y: int,
) -> u32 {
    pack_spec(
        conv_chan(image, kernel, side, w, x, y, 0),
        conv_chan(image, kernel, side, w, x, y, 1),
        conv_chan(image, kernel, side, w, x, y, 2),
    )
}

/// Whether `res` is the convolution of `image` with the given kernel: one
/// packed pixel for every position of the valid region (the image minus a
/// border of `side / 2` on every edge), in row-major order.
pub open spec fn conv_result_matches(
    image: Seq<Pixel>,
    kernel: Seq<i64>,
    side: int,
    w: int,
    h: int,
    res: Seq<u32>,
) -> bool {
    let half = side / 2;
    let rw = w - 2 * half;
    &&& res.len() == rw * (h - 2 * half)
    &&& forall|yy: int, xx: int|
        half <= yy < h - half && half <= xx < w - half ==> res[(yy - half) * rw + (xx - half)]
            == #[trigger] conv_pixel(image, kernel, side, w, xx, yy)
}

/// A square kernel length has exactly one non-negative side.
pub proof fn lemma_side_unique(a: int, b: int, klen: int)
    requires
        is_side(a, klen),
        is_side(b, klen),
    ensures
        a == b,
{
    assert(a == b) by (nonlinear_arith)
        requires
            0 <= a,
            0 <= b,
            a * a == b * b,
    ;
}

/// A flat row-major index stays inside the buffer.
pub proof fn lemma_flat_index_bound(y: int, x: int, h: int, w: int)
    requires
        0 <= y < h,
        0 <= x < w,
    ensures
        0 <= y * w + x < h * w,
{
    assert(0 <= y * w + x < h * w) by (nonlinear_arith)
        requires
            0 <= y < h,
            0 <= x < w,
    ;
}

/// Scales a fixed-point accumulation back down by a positive divisor,
/// truncating toward zero, through unsigned division of the magnitude.
pub fn tdiv_scaled(acc: i128, d: u64) -> (q: i128)
    requires
        d >= 1,
        acc > i128::MIN,
    ensures
        q == tdiv(acc as int, d as int),
{
    if acc >= 0 {
        proof {
            vstd::arithmetic::div_mod::lemma_div_is_ordered_by_denominator(acc as int, 1, d as int);
            vstd::arithmetic::div_mod::lemma_div_basics(acc as int);
        }
        ((acc as u128) / (d as u128)) as i128
    } else {
        proof {
            vstd::arithmetic::div_mod::lemma_div_is_ordered_by_denominator(
                (-acc) as int,
                1,
                d as int,
            );
            vstd::arithmetic::div_mod::lemma_div_basics((-acc) as int);
        }
        let m = ((-acc) as u128) / (d as u128);
        -(m as i128)
    }
}

/// Clamps a scaled-down fixed-point channel accumulation to 8 bits.
fn clamp_channel(acc: i128) -> (c: u8)
    requires
        acc > i128::MIN,
    ensures
        c == clamp8(tdiv(acc as int, KERNEL_ONE as int)),
{
    let q = tdiv_scaled(acc, 65536);
    if q < 0 {
        0
    } else if q > 255 {
        255
    } else {
        q as u8
    }
}

/// Finds the side of a square kernel length, if there is one.
#[verifier::loop_isolation(false)]
fn kernel_side(klen: usize) -> (r: Option<usize>)
    requires
        klen <= MAX_KERNEL_LEN,
    ensures
        match r {
            Some(s) => is_side(s as int, klen as int),
            None => forall|t: int| !is_side(t, klen as int),
        },
{
    let kl = klen as u64;
    for s in 0..257u64
        invariant
            forall|t: int| 0 <= t < s ==> !#[trigger] is_side(t, klen as int),
    {
        proof {
            assert(s * s <= 66049) by (nonlinear_arith)
                requires
                    0 <= s <= 257,
            ;
        }
        if s * s == kl {
            return Some(s as usize);
        }
    }
    proof {
        assert forall|t: int| !is_side(t, klen as int) by {
            if 0 <= t && t * t == klen {
                if t >= 257 {
                    assert(t * t >= 257 * 257) by (nonlinear_arith)
                        requires
                            t >= 257,
                    ;
                }
            }
        }
    }
    None
}

/// Linear convolution of `image` with an `N` by `N` fixed-point kernel.
///
/// The kernel is a flat sequence of weights scaled by `KERNEL_ONE`; its
/// length must be a perfect square whose side fits inside the image, and
/// the buffer length must equal `width * height`, else the matching error
/// comes back.  The output covers only the valid region: the image minus a
/// border of `side / 2` pixels on every edge, row-major, each pixel packed
/// red, green, blue from the reverse of the storage order.
#[verifier::loop_isolation(false)]
#[verifier::rlimit(100)]
pub fn convolve(image: &Vec<Pixel>, kernel: &Vec<i64>, width: u32, height: u32) -> (out: Result<
    Vec<u32>,
    EngineError,
>)
    requires
        image@.len() <= MAX_PIXELS,
        kernel@.len() <= MAX_KERNEL_LEN,
        kernel_in_range(kernel@),
    ensures
        match out {
            Ok(res) => {
                &&& image@.len() == (width as int) * (height as int)
                &&& kernel_fits(kernel@.len() as int, width as int, height as int)
                &&& forall|s: int|
                    is_side(s, kernel@.len() as int) ==> #[trigger] conv_result_matches(
                        image@,
                        kernel@,
                        s,
                        width as int,
                        height as int,
                        res@,
                    )
            },
            Err(e) => {
                &&& e == EngineError::InvalidDimensions <==> image@.len() != (width as int) * (
                height as int)
                &&& e == EngineError::InvalidKernel <==> image@.len() == (width as int) * (
                height as int) && !kernel_fits(kernel@.len() as int, width as int, height as int)
            },
        },
{
    proof {
        assert((width as int) * (height as int) <= 0xffffffff * 0xffffffff) by (nonlinear_arith)
            requires
                width as int <= 0xffffffff,
                height as int <= 0xffffffff,
                0 <= width as int,
                0 <= height as int,
        ;
    }
    if (image.len() as u64) != (width as u64) * (height as u64) {
        return Err(EngineError::InvalidDimensions);
    }
    let klen = kernel.len();
    let side = match kernel_side(klen) {
        Some(s) => s,
        None => {
            return Err(EngineError::InvalidKernel);
        },
    };
    if (side as u64) > (width as u64) || (side as u64) > (height as u64) {
        proof {
            if kernel_fits(klen as int, width as int, height as int) {
                let s = choose|s: int|
                    #[trigger] is_side(s, klen as int) && s <= width && s <= height;
                lemma_side_unique(s, side as int, klen as int);
            }
        }
        return Err(EngineError::InvalidKernel);
    }
    let w = width as usize;
    let h = height as usize;
    let half = side / 2;
    proof {
        vstd::arithmetic::div_mod::lemma_div_is_ordered(side as int, w as int, 2);
        vstd::arithmetic::div_mod::lemma_div_is_ordered(side as int, h as int, 2);
        assert(half <= w - half);
        assert(half <= h - half);
    }
    let rw = w - 2 * half;
    let ghost gimg = image@;
    let ghost gker = kernel@;
    let mut out: Vec<u32> = Vec::new();
    proof {
        assert(out@.len() == ((half as int) - (half as int)) * (rw as int));
    }
    for yy in half..(h - half)
        invariant
            out@.len() == (yy - half) * rw,
            forall|y2: int, x2: int|
                half <= y2 < yy && half <= x2 < w - half ==> out@[(y2 - half) * rw + (x2 - half)]
                    == #[trigger] conv_pixel(gimg, gker, side as int, w as int, x2, y2),
    {
        for xx in half..(w - half)
            invariant
                out@.len() == (yy - half) * rw + (xx - half),
                forall|y2: int, x2: int|
                    half <= y2 < yy && half <= x2 < w - half ==> out@[(y2 - half) * rw + (x2
                        - half)] == #[trigger] conv_pixel(gimg, gker, side as int, w as int, x2, y2),
                forall|x2: int|
                    half <= x2 < xx ==> out@[(yy - half) * rw + (x2 - half)]
                        == #[trigger] conv_pixel(gimg, gker, side as int, w as int, x2, yy as int),
        {
            proof {
                assert(w as int <= (w as int) * (h as int)) by (nonlinear_arith)
                    requires
                        h as int >= 1,
                        w as int >= 0,
                ;
                assert(h as int <= (w as int) * (h as int)) by (nonlinear_arith)
                    requires
                        w as int >= 1,
                        h as int >= 0,
                ;
            }
            let mut acc0: i128 = 0;
            let mut acc1: i128 = 0;
            let mut acc2: i128 = 0;
            for i in 0..klen
                invariant
                    acc0 == conv_acc(gimg, gker, side as int, w as int, xx as int, yy as int, 0, i as int),
                    acc1 == conv_acc(gimg, gker, side as int, w as int, xx as int, yy as int, 1, i as int),
                    acc2 == conv_acc(gimg, gker, side as int, w as int, xx as int, yy as int, 2, i as int),
                    -(i as int) * (KERNEL_WEIGHT_LIMIT as int) * 255 <= acc0 <= (i as int) * (
                    KERNEL_WEIGHT_LIMIT as int) * 255,
                    -(i as int) * (KERNEL_WEIGHT_LIMIT as int) * 255 <= acc1 <= (i as int) * (
                    KERNEL_WEIGHT_LIMIT as int) * 255,
                    -(i as int) * (KERNEL_WEIGHT_LIMIT as int) * 255 <= acc2 <= (i as int) * (
                    KERNEL_WEIGHT_LIMIT as int) * 255,
            {
                let xs = xx + i % side - half;
                let ys = yy + i / side - half;
                proof {
                    assert(i % side < side && i / side < side) by {
                        vstd::arithmetic::div_mod::lemma_fundamental_div_mod(
                            i as int,
                            side as int,
                        );
                        assert(i / side < side) by (nonlinear_arith)
                            requires
                                side * (i / side) + i % side == i,
                                i < side * side,
                                0 <= i % side,
                                0 < side,
                                0 <= i / side,
                        ;
                    }
                    lemma_flat_index_bound(ys as int, xs as int, h as int, w as int);
                    assert(0 <= ys < h);
                    assert(0 <= xs < w);
                    assert((h as int) * (w as int) == gimg.len()) by (nonlinear_arith)
                        requires
                            gimg.len() == (width as int) * (height as int),
                            w as int == width as int,
                            h as int == height as int,
                    ;
                    assert((ys as int) * (w as int) + (xs as int) < gimg.len());
                }
                let p = image[ys * w + xs];
                let k = kernel[i] as i128;
                proof {
                    assert((KERNEL_WEIGHT_LIMIT as int) * 255 >= 0) by (nonlinear_arith);
                    assert(-(KERNEL_WEIGHT_LIMIT as int) * 255 <= (k as int) * (p[2] as int) <= (
                    KERNEL_WEIGHT_LIMIT as int) * 255) by (nonlinear_arith)
                        requires
                            -KERNEL_WEIGHT_LIMIT <= k <= KERNEL_WEIGHT_LIMIT,
                            0 <= p[2] <= 255,
                    ;
                    assert(-(KERNEL_WEIGHT_LIMIT as int) * 255 <= (k as int) * (p[1] as int) <= (
                    KERNEL_WEIGHT_LIMIT as int) * 255) by (nonlinear_arith)
                        requires
                            -KERNEL_WEIGHT_LIMIT <= k <= KERNEL_WEIGHT_LIMIT,
                            0 <= p[1] <= 255,
                    ;
                    assert(-(KERNEL_WEIGHT_LIMIT as int) * 255 <= (k as int) * (p[0] as int) <= (
                    KERNEL_WEIGHT_LIMIT as int) * 255) by (nonlinear_arith)
                        requires
                            -KERNEL_WEIGHT_LIMIT <= k <= KERNEL_WEIGHT_LIMIT,
                            0 <= p[0] <= 255,
                    ;
                }
                acc0 = acc0 + k * (p[2] as i128);
                acc1 = acc1 + k * (p[1] as i128);
                acc2 = acc2 + k * (p[0] as i128);
            }
            let c0 = clamp_channel(acc0);
            let c1 = clamp_channel(acc1);
            let c2 = clamp_channel(acc2);
            let color = crate::codec::get_color_integer_from_rgb(c0, c1, c2);
            proof {
                assert(color == conv_pixel(gimg, gker, side as int, w as int, xx as int, yy as int));
            }
            let ghost old_out = out@;
            out.push(color);
            proof {
                assert forall|y2: int, x2: int|
                    half <= y2 < yy && half <= x2 < w - half implies out@[(y2 - half) * rw + (x2
                    - half)] == conv_pixel(gimg, gker, side as int, w as int, x2, y2) by {
                    assert(0 <= (y2 - half) * rw + (x2 - half) < (yy as int - half) * rw)
                        by (nonlinear_arith)
                        requires
                            half <= y2,
                            y2 < yy,
                            half <= x2,
                            x2 < w as int - half,
                            rw == w as int - 2 * half,
                    ;
                    assert(out@[(y2 - half) * rw + (x2 - half)] == old_out[(y2 - half) * rw + (x2
                        - half)]);
                }
                assert forall|x2: int|
                    half <= x2 <= xx implies out@[(yy as int - half) * rw + (x2 - half)]
                    == conv_pixel(gimg, gker, side as int, w as int, x2, yy as int) by {
                    if x2 < xx {
                        assert(out@[(yy as int - half) * rw + (x2 - half)] == old_out[(yy as int
                            - half) * rw + (x2 - half)]);
                    } else {
                        assert(out@[old_out.len() as int] == color);
                    }
                }
            }
        }
        proof {
            assert((yy - half) * rw + (w - half - half) == (yy + 1 - half) * rw) by (nonlinear_arith)
                requires
                    rw == w - 2 * half,
            ;
        }
    }
    proof {
        assert((h - half - half) * rw == rw * (h - 2 * half)) by (nonlinear_arith);
        assert(kernel_fits(klen as int, width as int, height as int)) by {
            assert(is_side(side as int, klen as int) && side <= width && side <= height);
        }
        assert forall|s: int|
            is_side(s, klen as int) implies #[trigger] conv_result_matches(
            gimg,
            gker,
            s,
            width as int,
            height as int,
            out@,
        ) by {
            lemma_side_unique(s, side as int, klen as int);
        }
    }
    Ok(out)
}

/// The 3×3 identity kernel in fixed point: one at the center, zero
/// elsewhere.
pub open spec fn identity_kernel() -> Seq<i64> {
    seq![0, 0, 0, 0, KERNEL_ONE, 0, 0, 0, 0]
}

/// Law: convolution with the identity kernel reproduces the interior of
/// the input unchanged — each valid output pixel is exactly the packed
/// form of the pixel under the kernel center.
pub proof fn lemma_identity_kernel_reproduces(image: Seq<Pixel>, w: int, h: int, x: int, y: int)
    requires
        image.len() == w * h,
        1 <= x < w - 1,
        1 <= y < h - 1,
    ensures
        conv_pixel(image, identity_kernel(), 3, w, x, y) == pack_spec(
            image[y * w + x][2],
            image[y * w + x][1],
            image[y * w + x][0],
        ),
{
    let ker = identity_kernel();
    let p = image[y * w + x];
    assert forall|ch: int| 0 <= ch < 3 implies conv_chan(image, ker, 3, w, x, y, ch) == p[2 - ch] by {
        reveal_with_fuel(conv_acc, 10);
        assert(conv_acc(image, ker, 3, w, x, y, ch, 9) == (KERNEL_ONE as int) * (p[2 - ch] as int));
        assert(tdiv((KERNEL_ONE as int) * (p[2 - ch] as int), KERNEL_ONE as int) == p[2 - ch]) by {
            vstd::arithmetic::div_mod::lemma_fundamental_div_mod_converse(
                (KERNEL_ONE as int) * (p[2 - ch] as int),
                KERNEL_ONE as int,
                p[2 - ch] as int,
                0,
            );
        }
    }
}

} // verus!
