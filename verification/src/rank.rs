use vstd::prelude::*;

use vstd::seq_lib::lemma_sorted_unique;
use vstd::relations::sorted_by;
use crate::codec::{pack_spec, Pixel, MAX_PIXELS};
use crate::error::EngineError;
use crate::window::lemma_flat_index_bound;

verus! {

/// The order statistic a window filter reduces each neighborhood to.
#[derive(Clone, Copy, Debug, PartialEq, Eq, Structural)]
pub enum RankStat {
    Median,
    Min,
    Max,
    Midpoint,
}

/// The comparable key of a pixel: its channels packed in reverse storage
/// order, so blue, green, red storage packs to the canonical
/// `(R << 16) | (G << 8) | B` integer.  The key is a lossless encoding of
/// the pixel, so ordering keys orders pixels totally.
pub open spec fn pixel_key(p: Pixel) -> u32 {
    pack_spec(p[2], p[1], p[0])
}

/// The ordering the window filters sort keys by.
pub open spec fn key_leq() -> spec_fn(u32, u32) -> bool {
    |a: u32, b: u32| a <= b
}

/// The window of keys gathered around output position `(x, y)`: the
/// `side * side` neighborhood, row by row.
pub open spec fn window_keys(image: Seq<Pixel>, side: int, w: int, x: int, y: int) -> Seq<u32> {
    let half = side / 2;
    Seq::new(
        (side * side) as nat,
        |i: int| pixel_key(image[(y + i / side - half) * w + (x + i % side - half)]),
    )
}

/// The sorted window of keys around `(x, y)`.
pub open spec fn sorted_window(image: Seq<Pixel>, side: int, w: int, x: int, y: int) -> Seq<u32> {
    window_keys(image, side, w, x, y).sort_by(key_leq())
}

/// The rounded midpoint of two channel samples.
pub open spec fn mid_channel(a: u8, b: u8) -> u8 {
    (((a as int) + (b as int) + 1) / 2) as u8
}

/// The packed output pixel for one window: the chosen order statistic of
/// the sorted keys.  `Median` takes the middle key, `Min` and `Max` the
/// first and last, and `Midpoint` averages the first and last key channel
/// by channel, rounding halves up.
pub open spec fn rank_pixel(
    image: Seq<Pixel>,
    side: int,
    w: int,
    x: int,
    y: int,
    stat: RankStat,
) -> u32 {
    let s = sorted_window(image, side, w, x, y);
    match stat {
        RankStat::Median => s[s.len() as int / 2],
        RankStat::Min => s[0],
        RankStat::Max => s[s.len() - 1],
        RankStat::Midpoint => {
            let lo = s[0];
            let hi = s[s.len() - 1];
            pack_spec(
                mid_channel(crate::codec::red_of(lo), crate::codec::red_of(hi)),
                mid_channel(crate::codec::green_of(lo), crate::codec::green_of(hi)),
                mid_channel(crate::codec::blue_of(lo), crate::codec::blue_of(hi)),
            )
        },
    }
}

/// Whether `res` is the order-statistic filtering of `image`: one packed
/// pixel per valid-region position, row-major, the same excluded-border
/// policy as convolution.
pub open spec fn rank_result_matches(
    image: Seq<Pixel>,
    side: int,
    w: int,
    h: int,
    stat: RankStat,
    res: Seq<u32>,
) -> bool {
    let half = side / 2;
    let rw = w - 2 * half;
    &&& res.len() == rw * (h - 2 * half)
    &&& forall|yy: int, xx: int|
        half <= yy < h - half && half <= xx < w - half ==> res[(yy - half) * rw + (xx - half)]
            == #[trigger] rank_pixel(image, side, w, xx, yy, stat)
}

/// Sorts a vector of keys ascending: the result is exactly `sort_by` of
/// the input under the key ordering.
#[verifier::loop_isolation(false)]
fn sort_keys(keys: &Vec<u32>) -> (out: Vec<u32>)
    ensures
        out@ == keys@.sort_by(key_leq()),
        out@.len() == keys@.len(),
{
    let n = keys.len();
    let mut out: Vec<u32> = Vec::new();
    proof {
        assert(out@ =~= keys@.take(0));
    }
    for k in 0..n
        invariant
            out@.len() == k,
            sorted_by(out@, key_leq()),
            out@.to_multiset() == keys@.take(k as int).to_multiset(),
    {
        let x = keys[k];
        let mut pos: usize = 0;
        while pos < out.len() && out[pos] <= x
            invariant
                pos <= out@.len(),
                forall|j: int| 0 <= j < pos ==> out@[j] <= x,
            decreases out@.len() - pos,
        {
            pos = pos + 1;
        }
        let ghost old_out = out@;
        out.insert(pos, x);
        proof {
            assert forall|i: int, j: int| 0 <= i < j < out@.len() implies key_leq()(
                out@[i],
                out@[j],
            ) by {
                if i < pos && j > pos {
                    assert(out@[i] == old_out[i] && out@[j] == old_out[j - 1]);
                } else if j == pos {
                    assert(out@[i] == old_out[i]);
                } else if i == pos && j > pos {
                    assert(out@[j] == old_out[j - 1]);
                    if pos < old_out.len() {
                        assert(!(old_out[pos as int] <= x));
                        assert(key_leq()(old_out[pos as int], old_out[j - 1]) || j - 1 == pos);
                    }
                }
            }
            broadcast use vstd::seq_lib::to_multiset_insert;
            broadcast use vstd::seq_lib::to_multiset_build;

            assert(keys@.take(k + 1).drop_last() =~= keys@.take(k as int));
            assert(keys@.take(k + 1) =~= keys@.take(k as int).push(x));
        }
    }
    proof {
        assert(keys@.take(n as int) =~= keys@);
        keys@.lemma_sort_by_ensures(key_leq());
        lemma_sorted_unique(out@, keys@.sort_by(key_leq()), key_leq());
    }
    out
}

/// Order-statistic window filtering: for each valid-region position,
/// gathers the `(2*distance+1)` square neighborhood, sorts it by packed
/// key, and emits the chosen statistic, row-major over the valid region.
///
/// The buffer length must equal `width * height` and the window must fit
/// inside the image, else the matching error comes back.
#[verifier::loop_isolation(false)]
#[verifier::rlimit(100)]
pub fn order_stat(
    image: &Vec<Pixel>,
    distance: u32,
    width: u32,
    height: u32,
    stat: RankStat,
) -> (out: Result<Vec<u32>, EngineError>)
    requires
        image@.len() <= MAX_PIXELS,
    ensures
        match out {
            Ok(res) => {
                &&& image@.len() == (width as int) * (height as int)
                &&& 2 * (distance as int) + 1 <= width as int
                &&& 2 * (distance as int) + 1 <= height as int
                &&& rank_result_matches(
                    image@,
                    2 * (distance as int) + 1,
                    width as int,
                    height as int,
                    stat,
                    res@,
                )
            },
            Err(e) => {
                &&& e == EngineError::InvalidDimensions <==> image@.len() != (width as int) * (
                height as int)
                &&& e == EngineError::InvalidKernel <==> image@.len() == (width as int) * (
                height as int) && (2 * (distance as int) + 1 > width as int || 2 * (
                distance as int) + 1 > height as int)
            },
        },
{
    proof {
        assert((width as int) * (height as int) <= 0xffffffff * 0xffffffff) by (nonlinear_arith)
            requires
                width as int <= 0xffffffff,
                height as int <= 0xffffffff,
                0 <= width as int,
                0 <= height as int,
        ;
    }
    if (image.len() as u64) != (width as u64) * (height as u64) {
        return Err(EngineError::InvalidDimensions);
    }
    if 2 * (distance as u64) + 1 > (width as u64) || 2 * (distance as u64) + 1 > (height as u64) {
        return Err(EngineError::InvalidKernel);
    }
    let w = width as usize;
    let h = height as usize;
    let side = 2 * (distance as usize) + 1;
    let half = distance as usize;
    let ghost gimg = image@;
    let rw = w - 2 * half;
    let mut out: Vec<u32> = Vec::new();
    proof {
        assert(out@.len() == ((half as int) - (half as int)) * (rw as int));
    }
    for yy in half..(h - half)
        invariant
            out@.len() == (yy - half) * rw,
            forall|y2: int, x2: int|
                half <= y2 < yy && half <= x2 < w - half ==> out@[(y2 - half) * rw + (x2 - half)]
                    == #[trigger] rank_pixel(gimg, side as int, w as int, x2, y2, stat),
    {
        for xx in half..(w - half)
            invariant
                out@.len() == (yy - half) * rw + (xx - half),
                forall|y2: int, x2: int|
                    half <= y2 < yy && half <= x2 < w - half ==> out@[(y2 - half) * rw + (x2
                        - half)] == #[trigger] rank_pixel(gimg, side as int, w as int, x2, y2, stat),
                forall|x2: int|
                    half <= x2 < xx ==> out@[(yy - half) * rw + (x2 - half)]
                        == #[trigger] rank_pixel(gimg, side as int, w as int, x2, yy as int, stat),
        {
            proof {
                assert(w as int <= (w as int) * (h as int)) by (nonlinear_arith)
                    requires
                        h as int >= 1,
                        w as int >= 0,
                ;
                assert(h as int <= (w as int) * (h as int)) by (nonlinear_arith)
                    requires
                        w as int >= 1,
                        h as int >= 0,
                ;
                assert((side as int) * (side as int) <= (w as int) * (h as int))
                    by (nonlinear_arith)
                    requires
                        0 <= side as int,
                        side as int <= w as int,
                        side as int <= h as int,
                ;
                assert(1 <= (side as int) * (side as int)) by (nonlinear_arith)
                    requires
                        1 <= side as int,
                ;
            }
            let area = side * side;
            let mut keys: Vec<u32> = Vec::new();
            for i in 0..area
                invariant
                    keys@.len() == i,
                    forall|j: int|
                        0 <= j < i ==> keys@[j] == window_keys(
                            gimg,
                            side as int,
                            w as int,
                            xx as int,
                            yy as int,
                        )[j],
            {
                proof {
                    vstd::arithmetic::div_mod::lemma_fundamental_div_mod(i as int, side as int);
                    assert(i / side < side) by (nonlinear_arith)
                        requires
                            side * (i / side) + i % side == i,
                            i < side * side,
                            0 <= i % side,
                            0 < side,
                            0 <= i / side,
                    ;
                }
                let xs = xx + i % side - half;
                let ys = yy + i / side - half;
                proof {
                    lemma_flat_index_bound(ys as int, xs as int, h as int, w as int);
                    assert((h as int) * (w as int) == gimg.len()) by (nonlinear_arith)
                        requires
                            gimg.len() == (width as int) * (height as int),
                            w as int == width as int,
                            h as int == height as int,
                    ;
                    assert((ys as int) * (w as int) + (xs as int) < gimg.len());
                }
                let p = image[ys * w + xs];
                keys.push(crate::codec::get_color_integer_from_rgb(p[2], p[1], p[0]));
            }
            proof {
                assert(keys@ =~= window_keys(gimg, side as int, w as int, xx as int, yy as int));
            }
            let sorted = sort_keys(&keys);
            proof {
                window_keys(
                    gimg,
                    side as int,
                    w as int,
                    xx as int,
                    yy as int,
                ).lemma_sort_by_ensures(key_leq());
                assert(sorted@.len() == area);
            }
            let color: u32 = match stat {
                RankStat::Median => sorted[area / 2],
                RankStat::Min => sorted[0],
                RankStat::Max => sorted[area - 1],
                RankStat::Midpoint => {
                    let lo = crate::codec::get_rgb_from_color_integer(sorted[0]);
                    let hi = crate::codec::get_rgb_from_color_integer(sorted[area - 1]);
                    let mr = ((lo[0] as u32 + hi[0] as u32 + 1) / 2) as u8;
                    let mg = ((lo[1] as u32 + hi[1] as u32 + 1) / 2) as u8;
                    let mb = ((lo[2] as u32 + hi[2] as u32 + 1) / 2) as u8;
                    crate::codec::get_color_integer_from_rgb(mr, mg, mb)
                },
            };
            proof {
                assert(color == rank_pixel(gimg, side as int, w as int, xx as int, yy as int, stat));
            }
            let ghost old_out = out@;
            out.push(color);
            proof {
                assert forall|y2: int, x2: int|
                    half <= y2 < yy && half <= x2 < w - half implies out@[(y2 - half) * rw + (x2
                    - half)] == rank_pixel(gimg, side as int, w as int, x2, y2, stat) by {
                    assert(0 <= (y2 - half) * rw + (x2 - half) < (yy as int - half) * rw)
                        by (nonlinear_arith)
                        requires
                            half <= y2,
                            y2 < yy,
                            half <= x2,
                            x2 < w as int - half,
                            rw == w as int - 2 * half,
                    ;
                    assert(out@[(y2 - half) * rw + (x2 - half)] == old_out[(y2 - half) * rw + (x2
                        - half)]);
                }
                assert forall|x2: int|
                    half <= x2 <= xx implies out@[(yy as int - half) * rw + (x2 - half)]
                    == rank_pixel(gimg, side as int, w as int, x2, yy as int, stat) by {
                    if x2 < xx {
                        assert(out@[(yy as int - half) * rw + (x2 - half)] == old_out[(yy as int
                            - half) * rw + (x2 - half)]);
                    } else {
                        assert(out@[old_out.len() as int] == color);
                    }
                }
            }
        }
        proof {
            assert((yy - half) * rw + (w - half - half) == (yy + 1 - half) * rw) by (nonlinear_arith)
                requires
                    rw == w - 2 * half,
            ;
        }
    }
    proof {
        assert((h - half - half) * rw == rw * (h - 2 * half)) by (nonlinear_arith);
    }
    Ok(out)
}

/// The median window filter of the original interface: the `Median`
/// statistic over a square window of radius `distance`.
pub fn median(image: &Vec<Pixel>, distance: u32, width: u32, height: u32) -> (out: Result<
    Vec<u32>,
    EngineError,
>)
    requires
        image@.len() <= MAX_PIXELS,
    ensures
        match out {
            Ok(res) => {
                &&& image@.len() == (width as int) * (height as int)
                &&& 2 * (distance as int) + 1 <= width as int
                &&& 2 * (distance as int) + 1 <= height as int
                &&& rank_result_matches(
                    image@,
                    2 * (distance as int) + 1,
                    width as int,
                    height as int,
                    RankStat::Median,
                    res@,
                )
            },
            Err(e) => {
                &&& e == EngineError::InvalidDimensions <==> image@.len() != (width as int) * (
                height as int)
                &&& e == EngineError::InvalidKernel <==> image@.len() == (width as int) * (
                height as int) && (2 * (distance as int) + 1 > width as int || 2 * (
                distance as int) + 1 > height as int)
            },
        },
{
    order_stat(image, distance, width, height, RankStat::Median)
}

/// Law: the median filter with distance zero is the identity on the valid
/// region — a window of area one sorts to itself, so every output pixel is
/// the packed form of the pixel at its own position.
pub proof fn lemma_median_distance_zero_identity(image: Seq<Pixel>, w: int, h: int, x: int, y: int)
    requires
        image.len() == w * h,
        0 <= x < w,
        0 <= y < h,
    ensures
        rank_pixel(image, 1, w, x, y, RankStat::Median) == pixel_key(image[y * w + x]),
{
    broadcast use vstd::seq_lib::group_to_multiset_ensures;

    let win = window_keys(image, 1, w, x, y);
    assert(win.len() == 1);
    assert(win[0] == pixel_key(image[y * w + x]));
    win.lemma_sort_by_ensures(key_leq());
    let s = win.sort_by(key_leq());
    assert(s.to_multiset().len() == win.to_multiset().len());
    assert(s.len() == 1);
    assert(win.contains(win[0]));
    assert(win.to_multiset().count(win[0]) > 0);
    assert(s.to_multiset().count(win[0]) > 0);
    assert(s.contains(win[0]));
    assert(s[0] == win[0]);
}

} // verus!
