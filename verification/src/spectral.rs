use vstd::prelude::*;

use crate::codec::{pack_spec, MAX_PIXELS};
use crate::error::EngineError;
use crate::window::{clamp8, tdiv};

verus! {

/// The fixed-point unit for cosine-basis values: a basis sample of one is
/// stored as `BASIS_ONE`.  Callers build the two basis tables with entries
/// scaled by this factor; every entry must lie within `±BASIS_ONE`, as an
/// orthonormal cosine basis does.
pub const BASIS_ONE: i64 = 1048576;

/// The largest magnitude a raw spectral coefficient can reach:
/// `255 * BASIS_ONE * MAX_PIXELS`, the bound the forward transform
/// guarantees and the inverse transform requires.
pub const COEFF_LIMIT: i64 = 17944029765304320;

/// Whether every table entry lies within the basis fixed-point range.
pub open spec fn table_in_range(t: Seq<i64>) -> bool {
    forall|i: int| 0 <= i < t.len() ==> -BASIS_ONE <= #[trigger] t[i] <= BASIS_ONE
}

/// Whether every coefficient lies within the raw coefficient range.
pub open spec fn coeffs_in_range(c: Seq<i64>) -> bool {
    forall|i: int| 0 <= i < c.len() ==> -COEFF_LIMIT <= #[trigger] c[i] <= COEFF_LIMIT
}

/// The first `k` terms of the forward transform sum for output
/// coefficient `(u, v)`: each spatial sample times its two scaled basis
/// values, the row basis from `tw` (a `w` by `w` table) and the column
/// basis from `th` (an `h` by `h` table).
pub open spec fn dct_sum(
    plane: Seq<u8>,
    tw: Seq<i64>,
    th: Seq<i64>,
    w: int,
    h: int,
    u: int,
    v: int,
    k: int,
) -> int
    decreases k,
{
    if k <= 0 {
        0
    } else {
        dct_sum(plane, tw, th, w, h, u, v, k - 1) + (plane[k - 1] as int) * (tw[u * w + (k - 1)
            % w] as int) * (th[v * h + (k - 1) / w] as int)
    }
}

/// One raw spectral coefficient: the full fixed-point sum scaled back by
/// one basis unit, truncating toward zero, so a raw coefficient carries
/// one factor of `BASIS_ONE`.
pub open spec fn dct_coeff(
    plane: Seq<u8>,
    tw: Seq<i64>,
    th: Seq<i64>,
    w: int,
    h: int,
    u: int,
    v: int,
) -> int {
    tdiv(dct_sum(plane, tw, th, w, h, u, v, w * h), BASIS_ONE as int)
}

/// The first `k` terms of the inverse transform sum for spatial sample
/// `(x, y)`.
pub open spec fn idct_sum(
    raw: Seq<i64>,
    tw: Seq<i64>,
    th: Seq<i64>,
    w: int,
    h: int,
    x: int,
    y: int,
    k: int,
) -> int
    decreases k,
{
    if k <= 0 {
        0
    } else {
        idct_sum(raw, tw, th, w, h, x, y, k - 1) + (raw[k - 1] as int) * (tw[((k - 1) % w) * w
            + x] as int) * (th[((k - 1) / w) * h + y] as int)
    }
}

/// One reconstructed spatial sample: the full inverse sum scaled back by
/// the three accumulated basis units, truncated toward zero and clamped
/// to the 8-bit range.
pub open spec fn idct_sample(
    raw: Seq<i64>,
    tw: Seq<i64>,
    th: Seq<i64>,
    w: int,
    h: int,
    x: int,
    y: int,
) -> u8 {
    clamp8(
        tdiv(
            idct_sum(raw, tw, th, w, h, x, y, w * h),
            (BASIS_ONE as int) * (BASIS_ONE as int) * (BASIS_ONE as int),
        ),
    )
}

/// Truncating division shrinks magnitude: a value within `±(m * b)`
/// divided by `b` lies within `±m`.
pub proof fn lemma_tdiv_shrinks(a: int, b: int, m: int)
    requires
        b >= 1,
        0 <= m,
        -(m * b) <= a <= m * b,
    ensures
        -m <= tdiv(a, b) <= m,
{
    if a >= 0 {
        vstd::arithmetic::div_mod::lemma_div_is_ordered(0, a, b);
        vstd::arithmetic::div_mod::lemma_div_basics(b);
        vstd::arithmetic::div_mod::lemma_div_is_ordered(a, m * b, b);
        vstd::arithmetic::div_mod::lemma_div_by_multiple(m, b);
    } else {
        vstd::arithmetic::div_mod::lemma_div_is_ordered(0, -a, b);
        vstd::arithmetic::div_mod::lemma_div_basics(b);
        vstd::arithmetic::div_mod::lemma_div_is_ordered(-a, m * b, b);
        vstd::arithmetic::div_mod::lemma_div_by_multiple(m, b);
    }
}

/// Every forward partial sum is bounded by its term count times the
/// largest possible term.
pub proof fn lemma_dct_sum_bound(
    plane: Seq<u8>,
    tw: Seq<i64>,
    th: Seq<i64>,
    w: int,
    h: int,
    u: int,
    v: int,
    k: int,
)
    requires
        table_in_range(tw),
        table_in_range(th),
        tw.len() == w * w,
        th.len() == h * h,
        0 <= u < w,
        0 <= v < h,
        0 <= k <= w * h,
    ensures
        -(k * (255 * (BASIS_ONE as int) * (BASIS_ONE as int))) <= dct_sum(
            plane,
            tw,
            th,
            w,
            h,
            u,
            v,
            k,
        ) <= k * (255 * (BASIS_ONE as int) * (BASIS_ONE as int)),
    decreases k,
{
    let term_max = 255 * (BASIS_ONE as int) * (BASIS_ONE as int);
    if k <= 0 {
    } else {
        lemma_dct_sum_bound(plane, tw, th, w, h, u, v, k - 1);
        vstd::arithmetic::div_mod::lemma_fundamental_div_mod(k - 1, w);
        vstd::arithmetic::div_mod::lemma_mod_division_less_than_divisor(k - 1, w);
        assert((k - 1) / w < h) by (nonlinear_arith)
            requires
                w * ((k - 1) / w) + (k - 1) % w == k - 1,
                k - 1 < w * h,
                0 <= (k - 1) % w,
                0 < w,
                0 <= (k - 1) / w,
        ;
        assert(0 <= u * w + (k - 1) % w < w * w) by (nonlinear_arith)
            requires
                0 <= u < w,
                0 <= (k - 1) % w < w,
        ;
        assert(0 <= v * h + (k - 1) / w < h * h) by (nonlinear_arith)
            requires
                0 <= v < h,
                0 <= (k - 1) / w < h,
        ;
        let p = plane[k - 1] as int;
        let t1 = tw[u * w + (k - 1) % w] as int;
        let t2 = th[v * h + (k - 1) / w] as int;
        assert(-term_max <= p * t1 * t2 <= term_max) by (nonlinear_arith)
            requires
                0 <= p <= 255,
                -(BASIS_ONE as int) <= t1 <= BASIS_ONE as int,
                -(BASIS_ONE as int) <= t2 <= BASIS_ONE as int,
                term_max == 255 * (BASIS_ONE as int) * (BASIS_ONE as int),
        ;
        assert((k - 1) * term_max + term_max == k * term_max) by (nonlinear_arith);
    }
}

/// Every inverse partial sum is bounded by its term count times the
/// largest possible term.
pub proof fn lemma_idct_sum_bound(
    raw: Seq<i64>,
    tw: Seq<i64>,
    th: Seq<i64>,
    w: int,
    h: int,
    x: int,
    y: int,
    k: int,
)
    requires
        table_in_range(tw),
        table_in_range(th),
        coeffs_in_range(raw),
        raw.len() == w * h,
        tw.len() == w * w,
        th.len() == h * h,
        0 <= x < w,
        0 <= y < h,
        0 <= k <= w * h,
    ensures
        -(k * ((COEFF_LIMIT as int) * (BASIS_ONE as int) * (BASIS_ONE as int))) <= idct_sum(
            raw,
            tw,
            th,
            w,
            h,
            x,
            y,
            k,
        ) <= k * ((COEFF_LIMIT as int) * (BASIS_ONE as int) * (BASIS_ONE as int)),
    decreases k,
{
    let term_max = (COEFF_LIMIT as int) * (BASIS_ONE as int) * (BASIS_ONE as int);
    if k <= 0 {
    } else {
        lemma_idct_sum_bound(raw, tw, th, w, h, x, y, k - 1);
        vstd::arithmetic::div_mod::lemma_fundamental_div_mod(k - 1, w);
        vstd::arithmetic::div_mod::lemma_mod_division_less_than_divisor(k - 1, w);
        assert((k - 1) / w < h) by (nonlinear_arith)
            requires
                w * ((k - 1) / w) + (k - 1) % w == k - 1,
                k - 1 < w * h,
                0 <= (k - 1) % w,
                0 < w,
                0 <= (k - 1) / w,
        ;
        assert(0 <= ((k - 1) % w) * w + x < w * w) by (nonlinear_arith)
            requires
                0 <= x < w,
                0 <= (k - 1) % w < w,
        ;
        assert(0 <= ((k - 1) / w) * h + y < h * h) by (nonlinear_arith)
            requires
                0 <= y < h,
                0 <= (k - 1) / w < h,
        ;
        let c = raw[k - 1] as int;
        let t1 = tw[((k - 1) % w) * w + x] as int;
        let t2 = th[((k - 1) / w) * h + y] as int;
        assert(-term_max <= c * t1 * t2 <= term_max) by (nonlinear_arith)
            requires
                -(COEFF_LIMIT as int) <= c <= COEFF_LIMIT as int,
                -(BASIS_ONE as int) <= t1 <= BASIS_ONE as int,
                -(BASIS_ONE as int) <= t2 <= BASIS_ONE as int,
                term_max == (COEFF_LIMIT as int) * (BASIS_ONE as int) * (BASIS_ONE as int),
        ;
        assert((k - 1) * term_max + term_max == k * term_max) by (nonlinear_arith);
    }
}

/// The forward transform over a contiguous range of coefficient rows
/// `row_start..row_end`: the worker unit of the row-partitioned transform.
/// The output holds those rows in row-major order; the full transform is
/// the concatenation of the workers' outputs in row order
/// (`lemma_rows_concat`).
#[verifier::loop_isolation(false)]
#[verifier::rlimit(100)]
pub fn dct_rows(
    plane: &Vec<u8>,
    tw: &Vec<i64>,
    th: &Vec<i64>,
    width: u32,
    height: u32,
    row_start: u32,
    row_end: u32,
) -> (out: Vec<i64>)
    requires
        plane@.len() == (width as int) * (height as int),
        plane@.len() <= MAX_PIXELS,
        tw@.len() == (width as int) * (width as int),
        th@.len() == (height as int) * (height as int),
        table_in_range(tw@),
        table_in_range(th@),
        row_start <= row_end <= height,
    ensures
        out@.len() == (row_end - row_start) * (width as int),
        coeffs_in_range(out@),
        forall|v: int, u: int|
            row_start as int <= v < row_end as int && 0 <= u < width as int ==> out@[(v
                - row_start as int) * (width as int) + u] == #[trigger] dct_coeff(
                plane@,
                tw@,
                th@,
                width as int,
                height as int,
                u,
                v,
            ),
{
    let w = width as usize;
    let h = height as usize;
    let ghost gp = plane@;
    let ghost gtw = tw@;
    let ghost gth = th@;
    let twl = tw.len();
    let thl = th.len();
    proof {
        assert(gtw.len() == twl && gth.len() == thl);
    }
    let rows = (row_end - row_start) as usize;
    proof {
        assert((rows as int) * (w as int) <= (h as int) * (w as int)) by (nonlinear_arith)
            requires
                0 <= rows as int <= h as int,
                0 <= w as int,
        ;
    }
    let total = rows * w;
    let wh = plane.len();
    let mut out: Vec<i64> = Vec::new();
    for j in 0..total
        invariant
            out@.len() == j,
            coeffs_in_range(out@),
            forall|jj: int|
                0 <= jj < j ==> out@[jj] == #[trigger] dct_coeff(
                    gp,
                    gtw,
                    gth,
                    w as int,
                    h as int,
                    jj % (w as int),
                    row_start as int + jj / (w as int),
                ),
    {
        proof {
            assert(w >= 1) by (nonlinear_arith)
                requires
                    j < (rows as int) * (w as int),
                    0 <= j,
                    0 <= w,
            ;
            vstd::arithmetic::div_mod::lemma_fundamental_div_mod(j as int, w as int);
            vstd::arithmetic::div_mod::lemma_mod_division_less_than_divisor(j as int, w as int);
            assert(j / w < rows) by (nonlinear_arith)
                requires
                    (w as int) * ((j as int) / (w as int)) + (j as int) % (w as int) == j as int,
                    j < (rows as int) * (w as int),
                    0 <= (j as int) % (w as int),
                    0 < w as int,
                    0 <= (j as int) / (w as int),
            ;
        }
        let u = j % w;
        let v = row_start as usize + j / w;
        let mut acc: i128 = 0;
        let ghost term_max = 255 * (BASIS_ONE as int) * (BASIS_ONE as int);
        for k in 0..wh
            invariant
                acc == dct_sum(gp, gtw, gth, w as int, h as int, u as int, v as int, k as int),
                -((k as int) * term_max) <= acc <= (k as int) * term_max,
        {
            proof {
                vstd::arithmetic::div_mod::lemma_fundamental_div_mod(k as int, w as int);
                vstd::arithmetic::div_mod::lemma_mod_division_less_than_divisor(k as int, w as int);
                assert(k / w < h) by (nonlinear_arith)
                    requires
                        (w as int) * ((k as int) / (w as int)) + (k as int) % (w as int)
                            == k as int,
                        k < (w as int) * (h as int),
                        0 <= (k as int) % (w as int),
                        0 < w as int,
                        0 <= (k as int) / (w as int),
                ;
                assert(0 <= (u as int) * (w as int) + (k as int) % (w as int) < (w as int) * (
                w as int)) by (nonlinear_arith)
                    requires
                        0 <= (u as int) < (w as int),
                        0 <= (k as int) % (w as int) < w as int,
                ;
                assert(0 <= (v as int) * (h as int) + (k as int) / (w as int) < (h as int) * (
                h as int)) by (nonlinear_arith)
                    requires
                        0 <= (v as int) < (h as int),
                        0 <= (k as int) / (w as int) < h as int,
                ;
                assert((w as int) * (w as int) == gtw.len());
                assert((h as int) * (h as int) == gth.len());
            }
            let t1 = tw[u * w + k % w];
            let t2 = th[v * h + k / w];
            let p = plane[k];
            proof {
                assert(-(255 * (BASIS_ONE as int)) <= (p as int) * (t1 as int) <= 255 * (
                BASIS_ONE as int)) by (nonlinear_arith)
                    requires
                        0 <= p as int <= 255,
                        -(BASIS_ONE as int) <= t1 as int <= BASIS_ONE as int,
                ;
                assert(((MAX_PIXELS as int) + 1) * term_max < i128::MAX) by (nonlinear_arith)
                    requires
                        term_max == 255 * (BASIS_ONE as int) * (BASIS_ONE as int),
                ;
                assert(-term_max <= (p as int) * (t1 as int) * (t2 as int) <= term_max)
                    by (nonlinear_arith)
                    requires
                        0 <= p as int <= 255,
                        -(BASIS_ONE as int) <= t1 as int <= BASIS_ONE as int,
                        -(BASIS_ONE as int) <= t2 as int <= BASIS_ONE as int,
                        term_max == 255 * (BASIS_ONE as int) * (BASIS_ONE as int),
                ;
                assert((k as int) * term_max + term_max == ((k as int) + 1) * term_max)
                    by (nonlinear_arith);
                assert((k as int) * term_max <= (MAX_PIXELS as int) * term_max) by (nonlinear_arith)
                    requires
                        0 <= k as int <= MAX_PIXELS as int,
                        term_max > 0,
                ;
            }
            acc = acc + (p as i128) * (t1 as i128) * (t2 as i128);
        }
        proof {
            assert(((w as int) * (h as int)) * term_max <= (MAX_PIXELS as int) * term_max)
                by (nonlinear_arith)
                requires
                    0 <= (w as int) * (h as int) <= MAX_PIXELS as int,
                    term_max > 0,
            ;
            assert((MAX_PIXELS as int) * term_max == (COEFF_LIMIT as int) * (BASIS_ONE as int))
                by (nonlinear_arith)
                requires
                    term_max == 255 * (BASIS_ONE as int) * (BASIS_ONE as int),
            ;
            lemma_tdiv_shrinks(acc as int, BASIS_ONE as int, COEFF_LIMIT as int);
        }
        let coeff = crate::window::tdiv_scaled(acc, 1048576);
        out.push(coeff as i64);
        proof {
            assert(out@[j as int] == dct_coeff(
                gp,
                gtw,
                gth,
                w as int,
                h as int,
                (j as int) % (w as int),
                row_start as int + (j as int) / (w as int),
            ));
        }
    }
    proof {
        assert forall|v: int, u: int|
            row_start as int <= v < row_end as int && 0 <= u < width as int implies out@[(v
            - row_start as int) * (width as int) + u] == #[trigger] dct_coeff(
            gp,
            gtw,
            gth,
            width as int,
            height as int,
            u,
            v,
        ) by {
            assert(0 <= (v - row_start as int) * (width as int) + u < (rows as int) * (
            w as int)) by (nonlinear_arith)
                requires
                    0 <= v - (row_start as int) < (rows as int),
                    0 <= u < w as int,
                    width as int == w as int,
            ;
            vstd::arithmetic::div_mod::lemma_fundamental_div_mod_converse(
                (v - row_start as int) * (width as int) + u,
                w as int,
                v - row_start as int,
                u,
            );
            let jj = (v - row_start as int) * (width as int) + u;
            assert(jj % (w as int) == u);
            assert(jj / (w as int) == v - row_start as int);
            assert(out@[jj] == dct_coeff(
                gp,
                gtw,
                gth,
                w as int,
                h as int,
                jj % (w as int),
                row_start as int + jj / (w as int),
            ));
        }
    }
    out
}

/// The inverse transform over a contiguous range of spatial sample rows
/// `row_start..row_end`, emitted as packed gray pixels: the worker unit
/// of the row-partitioned inverse transform.  Each sample is
/// reconstructed from every coefficient, scaled back, clamped to the
/// 8-bit range, and packed on all three channels; the full inverse is
/// the concatenation of the workers' outputs in row order
/// (`lemma_sample_rows_concat`).
#[verifier::loop_isolation(false)]
#[verifier::rlimit(100)]
pub fn idct_rows(
    raw: &Vec<i64>,
    tw: &Vec<i64>,
    th: &Vec<i64>,
    width: u32,
    height: u32,
    row_start: u32,
    row_end: u32,
) -> (out: Vec<u32>)
    requires
        raw@.len() == (width as int) * (height as int),
        raw@.len() <= MAX_PIXELS,
        tw@.len() == (width as int) * (width as int),
        th@.len() == (height as int) * (height as int),
        table_in_range(tw@),
        table_in_range(th@),
        coeffs_in_range(raw@),
        row_start <= row_end <= height,
    ensures
        out@.len() == (row_end - row_start) * (width as int),
        forall|y: int, x: int|
            row_start as int <= y < row_end as int && 0 <= x < width as int ==> out@[(y
                - row_start as int) * (width as int) + x] == pack_spec(
                idct_sample(raw@, tw@, th@, width as int, height as int, x, y),
                idct_sample(raw@, tw@, th@, width as int, height as int, x, y),
                #[trigger] idct_sample(raw@, tw@, th@, width as int, height as int, x, y),
            ),
{
    let w = width as usize;
    let h = height as usize;
    let ghost graw = raw@;
    let ghost gtw = tw@;
    let ghost gth = th@;
    let twl = tw.len();
    let thl = th.len();
    proof {
        assert(gtw.len() == twl && gth.len() == thl);
    }
    let wh = raw.len();
    let rows = (row_end - row_start) as usize;
    proof {
        assert((rows as int) * (w as int) <= (h as int) * (w as int)) by (nonlinear_arith)
            requires
                0 <= rows as int <= h as int,
                0 <= w as int,
        ;
        assert((h as int) * (w as int) == graw.len()) by (nonlinear_arith)
            requires
                graw.len() == (width as int) * (height as int),
                w as int == width as int,
                h as int == height as int,
        ;
    }
    let total = rows * w;
    let mut out: Vec<u32> = Vec::new();
    for j in 0..total
        invariant
            out@.len() == j,
            forall|jj: int|
                0 <= jj < j ==> out@[jj] == pack_spec(
                    idct_sample(
                        graw,
                        gtw,
                        gth,
                        w as int,
                        h as int,
                        jj % (w as int),
                        row_start as int + jj / (w as int),
                    ),
                    idct_sample(
                        graw,
                        gtw,
                        gth,
                        w as int,
                        h as int,
                        jj % (w as int),
                        row_start as int + jj / (w as int),
                    ),
                    #[trigger] idct_sample(
                        graw,
                        gtw,
                        gth,
                        w as int,
                        h as int,
                        jj % (w as int),
                        row_start as int + jj / (w as int),
                    ),
                ),
    {
        proof {
            assert(w >= 1) by (nonlinear_arith)
                requires
                    j < (rows as int) * (w as int),
                    0 <= j,
                    0 <= w,
            ;
            vstd::arithmetic::div_mod::lemma_fundamental_div_mod(j as int, w as int);
            vstd::arithmetic::div_mod::lemma_mod_division_less_than_divisor(j as int, w as int);
            assert(j / w < rows) by (nonlinear_arith)
                requires
                    (w as int) * ((j as int) / (w as int)) + (j as int) % (w as int) == j as int,
                    j < (rows as int) * (w as int),
                    0 <= (j as int) % (w as int),
                    0 < w as int,
                    0 <= (j as int) / (w as int),
            ;
        }
        let x = j % w;
        let y = row_start as usize + j / w;
        let mut acc: i128 = 0;
        let ghost term_max = (COEFF_LIMIT as int) * (BASIS_ONE as int) * (BASIS_ONE as int);
        for k in 0..wh
            invariant
                acc == idct_sum(graw, gtw, gth, w as int, h as int, x as int, y as int, k as int),
                -((k as int) * term_max) <= acc <= (k as int) * term_max,
        {
            proof {
                vstd::arithmetic::div_mod::lemma_fundamental_div_mod(k as int, w as int);
                vstd::arithmetic::div_mod::lemma_mod_division_less_than_divisor(k as int, w as int);
                assert(k / w < h) by (nonlinear_arith)
                    requires
                        (w as int) * ((k as int) / (w as int)) + (k as int) % (w as int)
                            == k as int,
                        k < (w as int) * (h as int),
                        0 <= (k as int) % (w as int),
                        0 < w as int,
                        0 <= (k as int) / (w as int),
                ;
                assert(0 <= ((k as int) % (w as int)) * (w as int) + (x as int) < (w as int) * (
                w as int)) by (nonlinear_arith)
                    requires
                        0 <= (x as int) < (w as int),
                        0 <= (k as int) % (w as int) < w as int,
                ;
                assert(0 <= ((k as int) / (w as int)) * (h as int) + (y as int) < (h as int) * (
                h as int)) by (nonlinear_arith)
                    requires
                        0 <= (y as int) < (h as int),
                        0 <= (k as int) / (w as int) < h as int,
                ;
                assert((w as int) * (w as int) == gtw.len());
                assert((h as int) * (h as int) == gth.len());
            }
            let t1 = tw[(k % w) * w + x];
            let t2 = th[(k / w) * h + y];
            let c = raw[k];
            proof {
                assert(-((COEFF_LIMIT as int) * (BASIS_ONE as int)) <= (c as int) * (t1 as int)
                    <= (COEFF_LIMIT as int) * (BASIS_ONE as int)) by (nonlinear_arith)
                    requires
                        -(COEFF_LIMIT as int) <= c as int <= COEFF_LIMIT as int,
                        -(BASIS_ONE as int) <= t1 as int <= BASIS_ONE as int,
                ;
                assert(((MAX_PIXELS as int) + 1) * term_max < i128::MAX) by (nonlinear_arith)
                    requires
                        term_max == (COEFF_LIMIT as int) * (BASIS_ONE as int) * (BASIS_ONE as int),
                ;
                assert(-term_max <= (c as int) * (t1 as int) * (t2 as int) <= term_max)
                    by (nonlinear_arith)
                    requires
                        -(COEFF_LIMIT as int) <= c as int <= COEFF_LIMIT as int,
                        -(BASIS_ONE as int) <= t1 as int <= BASIS_ONE as int,
                        -(BASIS_ONE as int) <= t2 as int <= BASIS_ONE as int,
                        term_max == (COEFF_LIMIT as int) * (BASIS_ONE as int) * (BASIS_ONE as int),
                ;
                assert((k as int) * term_max + term_max == ((k as int) + 1) * term_max)
                    by (nonlinear_arith);
                assert((k as int) * term_max <= (MAX_PIXELS as int) * term_max) by (nonlinear_arith)
                    requires
                        0 <= k as int <= MAX_PIXELS as int,
                        term_max > 0,
                ;
            }
            acc = acc + (c as i128) * (t1 as i128) * (t2 as i128);
        }
        proof {
            assert(((w as int) * (h as int)) * term_max <= (MAX_PIXELS as int) * term_max)
                by (nonlinear_arith)
                requires
                    0 <= (w as int) * (h as int) <= MAX_PIXELS as int,
                    term_max > 0,
            ;
        }
        let s = clamp_spectral(acc);
        let color = crate::codec::get_color_integer_from_gray(s);
        out.push(color);
    }
    proof {
        assert forall|y: int, x: int|
            row_start as int <= y < row_end as int && 0 <= x < width as int implies out@[(y
            - row_start as int) * (width as int) + x] == pack_spec(
            idct_sample(graw, gtw, gth, width as int, height as int, x, y),
            idct_sample(graw, gtw, gth, width as int, height as int, x, y),
            #[trigger] idct_sample(graw, gtw, gth, width as int, height as int, x, y),
        ) by {
            assert(0 <= (y - row_start as int) * (width as int) + x < (rows as int) * (w as int))
                by (nonlinear_arith)
                requires
                    0 <= y - (row_start as int) < (rows as int),
                    0 <= x < w as int,
                    width as int == w as int,
            ;
            vstd::arithmetic::div_mod::lemma_fundamental_div_mod_converse(
                (y - row_start as int) * (width as int) + x,
                w as int,
                y - row_start as int,
                x,
            );
            let jj = (y - row_start as int) * (width as int) + x;
            assert(jj % (w as int) == x);
            assert(jj / (w as int) == y - row_start as int);
            assert(out@[jj] == pack_spec(
                idct_sample(
                    graw,
                    gtw,
                    gth,
                    w as int,
                    h as int,
                    jj % (w as int),
                    row_start as int + jj / (w as int),
                ),
                idct_sample(
                    graw,
                    gtw,
                    gth,
                    w as int,
                    h as int,
                    jj % (w as int),
                    row_start as int + jj / (w as int),
                ),
                idct_sample(
                    graw,
                    gtw,
                    gth,
                    w as int,
                    h as int,
                    jj % (w as int),
                    row_start as int + jj / (w as int),
                ),
            ));
        }
    }
    out
}


/// Scales an inverse-transform accumulation back by the three basis
/// units and clamps it to 8 bits.
fn clamp_spectral(acc: i128) -> (c: u8)
    requires
        acc > i128::MIN,
    ensures
        c == clamp8(
            tdiv(acc as int, (BASIS_ONE as int) * (BASIS_ONE as int) * (BASIS_ONE as int)),
        ),
{
    proof {
        assert((BASIS_ONE as int) * (BASIS_ONE as int) * (BASIS_ONE as int)
            == 1152921504606846976) by (nonlinear_arith);
    }
    let q = crate::window::tdiv_scaled(acc, 1152921504606846976);
    if q < 0 {
        0
    } else if q > 255 {
        255
    } else {
        q as u8
    }
}

/// The smallest value of a coefficient sequence (zero when empty).
pub open spec fn seq_min(s: Seq<i64>) -> int
    decreases s.len(),
{
    if s.len() == 0 {
        0
    } else if s.len() == 1 {
        s[0] as int
    } else {
        let m = seq_min(s.drop_last());
        if (s.last() as int) < m {
            s.last() as int
        } else {
            m
        }
    }
}

/// The largest value of a coefficient sequence (zero when empty).
pub open spec fn seq_max(s: Seq<i64>) -> int
    decreases s.len(),
{
    if s.len() == 0 {
        0
    } else if s.len() == 1 {
        s[0] as int
    } else {
        let m = seq_max(s.drop_last());
        if (s.last() as int) > m {
            s.last() as int
        } else {
            m
        }
    }
}

/// Every element lies between the sequence minimum and maximum.
pub proof fn lemma_minmax(s: Seq<i64>)
    ensures
        forall|i: int| 0 <= i < s.len() ==> seq_min(s) <= #[trigger] (s[i] as int) <= seq_max(s),
    decreases s.len(),
{
    if s.len() > 1 {
        lemma_minmax(s.drop_last());
        assert forall|i: int| 0 <= i < s.len() implies seq_min(s) <= #[trigger] (
        s[i] as int) <= seq_max(s) by {
            if i < s.len() - 1 {
                assert(s.drop_last()[i] == s[i]);
            } else {
                assert(s[i] == s.last());
            }
        }
    }
}

/// The gray level a coefficient maps to under min-max rescaling: the
/// darkest coefficient maps to zero, the brightest to 255, and a
/// degenerate all-equal spectrum maps uniformly to zero.
pub open spec fn norm_gray(c: i64, lo: int, hi: int) -> u8 {
    if hi <= lo {
        0u8
    } else {
        ((((c as int) - lo) * 255) / (hi - lo)) as u8
    }
}

/// Whether `out` is the min-max visualization of the coefficients `c`:
/// each packed gray pixel rescales its coefficient linearly between the
/// sequence minimum and maximum.
pub open spec fn normalized_matches(c: Seq<i64>, out: Seq<u32>) -> bool {
    &&& out.len() == c.len()
    &&& forall|i: int|
        0 <= i < c.len() ==> out[i] == pack_spec(
            norm_gray(c[i], seq_min(c), seq_max(c)),
            norm_gray(c[i], seq_min(c), seq_max(c)),
            #[trigger] norm_gray(c[i], seq_min(c), seq_max(c)),
        )
}

/// Min-max visualization of a raw spectrum: maps coefficients linearly
/// to packed gray levels so the darkest maps to black and the brightest
/// to white; an all-equal spectrum maps uniformly to black.
#[verifier::loop_isolation(false)]
pub fn freq_normalize(coeffs: &Vec<i64>) -> (out: Vec<u32>)
    ensures
        normalized_matches(coeffs@, out@),
{
    let ghost gc = coeffs@;
    let n = coeffs.len();
    let mut out: Vec<u32> = Vec::new();
    if n == 0 {
        return out;
    }
    let mut lo: i64 = coeffs[0];
    let mut hi: i64 = coeffs[0];
    proof {
        assert(gc.take(1).len() == 1);
        assert(gc.take(1)[0] == gc[0]);
    }
    for k in 1..n
        invariant
            lo as int == seq_min(gc.take(k as int)),
            hi as int == seq_max(gc.take(k as int)),
    {
        let c = coeffs[k];
        proof {
            assert(gc.take(k + 1).drop_last() =~= gc.take(k as int));
            assert(gc.take(k + 1).last() == gc[k as int]);
        }
        if c < lo {
            lo = c;
        }
        if c > hi {
            hi = c;
        }
    }
    proof {
        assert(gc.take(n as int) =~= gc);
        lemma_minmax(gc);
    }
    for k in 0..n
        invariant
            out@.len() == k,
            lo as int == seq_min(gc),
            hi as int == seq_max(gc),
            forall|i: int|
                0 <= i < k ==> out@[i] == pack_spec(
                    norm_gray(gc[i], seq_min(gc), seq_max(gc)),
                    norm_gray(gc[i], seq_min(gc), seq_max(gc)),
                    #[trigger] norm_gray(gc[i], seq_min(gc), seq_max(gc)),
                ),
    {
        let c = coeffs[k];
        let g: u8 = if hi <= lo {
            0
        } else {
            let off = ((c as i128) - (lo as i128)) as u128;
            let span = ((hi as i128) - (lo as i128)) as u128;
            proof {
                vstd::arithmetic::div_mod::lemma_div_is_ordered(
                    (off * 255) as int,
                    (span * 255) as int,
                    span as int,
                );
                vstd::arithmetic::div_mod::lemma_div_by_multiple(255, span as int);
                vstd::arithmetic::div_mod::lemma_div_is_ordered(0, (off * 255) as int, span as int);
                vstd::arithmetic::div_mod::lemma_div_basics(span as int);
            }
            ((off * 255) / span) as u8
        };
        out.push(crate::codec::get_color_integer_from_gray(g));
    }
    out
}

/// What an ideal low-pass mask leaves of coefficient `k`: zero wherever
/// the frequency index `(u, v)` lies strictly outside the radius from the
/// origin, the coefficient itself elsewhere.
pub open spec fn lowpass_mask_spec(c: Seq<i64>, w: int, radius: int, k: int) -> i64 {
    if (k % w) * (k % w) + (k / w) * (k / w) > radius * radius {
        0i64
    } else {
        c[k]
    }
}

/// What an ideal high-pass mask leaves of coefficient `k`: the complement
/// of the low-pass mask.
pub open spec fn highpass_mask_spec(c: Seq<i64>, w: int, radius: int, k: int) -> i64 {
    if (k % w) * (k % w) + (k / w) * (k / w) <= radius * radius {
        0i64
    } else {
        c[k]
    }
}

/// Applies one of the two ideal circular masks over the coefficient grid
/// and pairs the result with its visualization.
#[verifier::loop_isolation(false)]
fn freq_mask(coeffs: &Vec<i64>, width: u32, height: u32, radius: u32, keep_low: bool) -> (out:
    Result<(Vec<u32>, Vec<i64>), EngineError>)
    requires
        coeffs@.len() <= MAX_PIXELS,
    ensures
        match out {
            Ok(r) => {
                &&& coeffs@.len() == (width as int) * (height as int)
                &&& r.1@.len() == coeffs@.len()
                &&& keep_low ==> forall|k: int|
                    0 <= k < coeffs@.len() ==> r.1@[k] == #[trigger] lowpass_mask_spec(
                        coeffs@,
                        width as int,
                        radius as int,
                        k,
                    )
                &&& !keep_low ==> forall|k: int|
                    0 <= k < coeffs@.len() ==> r.1@[k] == #[trigger] highpass_mask_spec(
                        coeffs@,
                        width as int,
                        radius as int,
                        k,
                    )
                &&& normalized_matches(r.1@, r.0@)
            },
            Err(e) => {
                &&& e == EngineError::InvalidDimensions
                &&& coeffs@.len() != (width as int) * (height as int)
            },
        },
{
    proof {
        assert((width as int) * (height as int) <= 0xffffffff * 0xffffffff) by (nonlinear_arith)
            requires
                width as int <= 0xffffffff,
                height as int <= 0xffffffff,
                0 <= width as int,
                0 <= height as int,
        ;
    }
    if (coeffs.len() as u64) != (width as u64) * (height as u64) {
        return Err(EngineError::InvalidDimensions);
    }
    let ghost gc = coeffs@;
    let w = width as usize;
    let h = height as usize;
    let n = coeffs.len();
    let mut masked: Vec<i64> = Vec::new();
    for k in 0..n
        invariant
            masked@.len() == k,
            keep_low ==> forall|kk: int|
                0 <= kk < k ==> masked@[kk] == #[trigger] lowpass_mask_spec(
                    gc,
                    width as int,
                    radius as int,
                    kk,
                ),
            !keep_low ==> forall|kk: int|
                0 <= kk < k ==> masked@[kk] == #[trigger] highpass_mask_spec(
                    gc,
                    width as int,
                    radius as int,
                    kk,
                ),
    {
        proof {
            assert(w >= 1) by (nonlinear_arith)
                requires
                    k < (w as int) * (h as int),
                    0 <= k,
                    0 <= w,
            ;
            vstd::arithmetic::div_mod::lemma_fundamental_div_mod(k as int, w as int);
            vstd::arithmetic::div_mod::lemma_mod_division_less_than_divisor(k as int, w as int);
            assert(k / w < h) by (nonlinear_arith)
                requires
                    (w as int) * ((k as int) / (w as int)) + (k as int) % (w as int) == k as int,
                    k < (w as int) * (h as int),
                    0 <= (k as int) % (w as int),
                    0 < w as int,
                    0 <= (k as int) / (w as int),
            ;
        }
        let u = (k % w) as u64;
        let v = (k / w) as u64;
        proof {
            assert(u * u <= (MAX_PIXELS as int) * (MAX_PIXELS as int) && v * v <= (
            MAX_PIXELS as int) * (MAX_PIXELS as int)) by (nonlinear_arith)
                requires
                    0 <= u as int <= MAX_PIXELS as int,
                    0 <= v as int <= MAX_PIXELS as int,
            ;
            assert((radius as int) * (radius as int) <= 0xffffffff * 0xffffffff)
                by (nonlinear_arith)
                requires
                    0 <= radius as int <= 0xffffffff,
            ;
        }
        let outside = u * u + v * v > (radius as u64) * (radius as u64);
        let zeroed = if keep_low {
            outside
        } else {
            !outside
        };
        proof {
            assert(outside == ((k as int % (width as int)) * (k as int % (width as int)) + (
            k as int / (width as int)) * (k as int / (width as int)) > (radius as int) * (
            radius as int)));
        }
        if zeroed {
            masked.push(0);
        } else {
            masked.push(coeffs[k]);
        }
        proof {
            if keep_low {
                assert(masked@[k as int] == lowpass_mask_spec(gc, width as int, radius as int, k as int));
            } else {
                assert(masked@[k as int] == highpass_mask_spec(gc, width as int, radius as int, k as int));
            }
        }
    }
    let visual = freq_normalize(&masked);
    Ok((visual, masked))
}

/// Ideal circular low-pass mask: zeroes every coefficient whose frequency
/// index lies strictly outside `radius` from the origin, and returns the
/// masked spectrum with its visualization.
pub fn freq_lowpass(coeffs: &Vec<i64>, width: u32, height: u32, radius: u32) -> (out: Result<
    (Vec<u32>, Vec<i64>),
    EngineError,
>)
    requires
        coeffs@.len() <= MAX_PIXELS,
    ensures
        match out {
            Ok(r) => {
                &&& coeffs@.len() == (width as int) * (height as int)
                &&& r.1@.len() == coeffs@.len()
                &&& forall|k: int|
                    0 <= k < coeffs@.len() ==> r.1@[k] == #[trigger] lowpass_mask_spec(
                        coeffs@,
                        width as int,
                        radius as int,
                        k,
                    )
                &&& normalized_matches(r.1@, r.0@)
            },
            Err(e) => {
                &&& e == EngineError::InvalidDimensions
                &&& coeffs@.len() != (width as int) * (height as int)
            },
        },
{
    freq_mask(coeffs, width, height, radius, true)
}

/// Ideal circular high-pass mask: zeroes every coefficient whose
/// frequency index lies within `radius` of the origin, and returns the
/// masked spectrum with its visualization.
pub fn freq_highpass(coeffs: &Vec<i64>, width: u32, height: u32, radius: u32) -> (out: Result<
    (Vec<u32>, Vec<i64>),
    EngineError,
>)
    requires
        coeffs@.len() <= MAX_PIXELS,
    ensures
        match out {
            Ok(r) => {
                &&& coeffs@.len() == (width as int) * (height as int)
                &&& r.1@.len() == coeffs@.len()
                &&& forall|k: int|
                    0 <= k < coeffs@.len() ==> r.1@[k] == #[trigger] highpass_mask_spec(
                        coeffs@,
                        width as int,
                        radius as int,
                        k,
                    )
                &&& normalized_matches(r.1@, r.0@)
            },
            Err(e) => {
                &&& e == EngineError::InvalidDimensions
                &&& coeffs@.len() != (width as int) * (height as int)
            },
        },
{
    freq_mask(coeffs, width, height, radius, false)
}

/// The forward transform of a whole spatial plane: computes every
/// coefficient row (the single-threaded run of the row partition) and
/// pairs the raw spectrum with its visualization.
pub fn dct(plane: &Vec<u8>, tw: &Vec<i64>, th: &Vec<i64>, width: u32, height: u32) -> (out: Result<
    (Vec<u32>, Vec<i64>),
    EngineError,
>)
    requires
        plane@.len() <= MAX_PIXELS,
        table_in_range(tw@),
        table_in_range(th@),
    ensures
        match out {
            Ok(r) => {
                &&& plane@.len() == (width as int) * (height as int)
                &&& tw@.len() == (width as int) * (width as int)
                &&& th@.len() == (height as int) * (height as int)
                &&& r.1@.len() == plane@.len()
                &&& coeffs_in_range(r.1@)
                &&& forall|v: int, u: int|
                    0 <= v < height as int && 0 <= u < width as int ==> r.1@[v * (width as int)
                        + u] == #[trigger] dct_coeff(
                        plane@,
                        tw@,
                        th@,
                        width as int,
                        height as int,
                        u,
                        v,
                    )
                &&& normalized_matches(r.1@, r.0@)
            },
            Err(e) => {
                &&& e == EngineError::InvalidDimensions
                &&& !(plane@.len() == (width as int) * (height as int) && tw@.len() == (
                width as int) * (width as int) && th@.len() == (height as int) * (height as int))
            },
        },
{
    proof {
        assert((width as int) * (height as int) <= 0xffffffff * 0xffffffff && (width as int) * (
        width as int) <= 0xffffffff * 0xffffffff && (height as int) * (height as int)
            <= 0xffffffff * 0xffffffff) by (nonlinear_arith)
            requires
                0 <= width as int <= 0xffffffff,
                0 <= height as int <= 0xffffffff,
        ;
    }
    if (plane.len() as u64) != (width as u64) * (height as u64) || (tw.len() as u64) != (
    width as u64) * (width as u64) || (th.len() as u64) != (height as u64) * (height as u64) {
        return Err(EngineError::InvalidDimensions);
    }
    let raw = dct_rows(plane, tw, th, width, height, 0, height);
    proof {
        assert(raw@.len() == plane@.len()) by (nonlinear_arith)
            requires
                raw@.len() == ((height as int) - 0) * (width as int),
                plane@.len() == (width as int) * (height as int),
        ;
        assert forall|v: int, u: int|
            0 <= v < height as int && 0 <= u < width as int implies raw@[v * (width as int) + u]
            == #[trigger] dct_coeff(plane@, tw@, th@, width as int, height as int, u, v) by {
            assert(raw@[(v - 0) * (width as int) + u] == dct_coeff(
                plane@,
                tw@,
                th@,
                width as int,
                height as int,
                u,
                v,
            ));
        }
    }
    let visual = freq_normalize(&raw);
    Ok((visual, raw))
}

/// The inverse transform of a whole spectrum, with the dimension checks
/// of the public interface: reconstructs every spatial sample and packs
/// it as a gray pixel.
pub fn idct(raw: &Vec<i64>, tw: &Vec<i64>, th: &Vec<i64>, width: u32, height: u32) -> (out: Result<
    Vec<u32>,
    EngineError,
>)
    requires
        raw@.len() <= MAX_PIXELS,
        table_in_range(tw@),
        table_in_range(th@),
        coeffs_in_range(raw@),
    ensures
        match out {
            Ok(res) => {
                &&& raw@.len() == (width as int) * (height as int)
                &&& tw@.len() == (width as int) * (width as int)
                &&& th@.len() == (height as int) * (height as int)
                &&& res@.len() == raw@.len()
                &&& forall|y: int, x: int|
                    0 <= y < height as int && 0 <= x < width as int ==> res@[y * (width as int)
                        + x] == pack_spec(
                        idct_sample(raw@, tw@, th@, width as int, height as int, x, y),
                        idct_sample(raw@, tw@, th@, width as int, height as int, x, y),
                        #[trigger] idct_sample(raw@, tw@, th@, width as int, height as int, x, y),
                    )
            },
            Err(e) => {
                &&& e == EngineError::InvalidDimensions
                &&& !(raw@.len() == (width as int) * (height as int) && tw@.len() == (width as int)
                    * (width as int) && th@.len() == (height as int) * (height as int))
            },
        },
{
    proof {
        assert((width as int) * (height as int) <= 0xffffffff * 0xffffffff && (width as int) * (
        width as int) <= 0xffffffff * 0xffffffff && (height as int) * (height as int)
            <= 0xffffffff * 0xffffffff) by (nonlinear_arith)
            requires
                0 <= width as int <= 0xffffffff,
                0 <= height as int <= 0xffffffff,
        ;
    }
    if (raw.len() as u64) != (width as u64) * (height as u64) || (tw.len() as u64) != (
    width as u64) * (width as u64) || (th.len() as u64) != (height as u64) * (height as u64) {
        return Err(EngineError::InvalidDimensions);
    }
    let res = idct_rows(raw, tw, th, width, height, 0, height);
    proof {
        assert(res@.len() == raw@.len()) by (nonlinear_arith)
            requires
                res@.len() == ((height as int) - 0) * (width as int),
                raw@.len() == (width as int) * (height as int),
        ;
        assert forall|y: int, x: int|
            0 <= y < height as int && 0 <= x < width as int implies res@[y * (width as int) + x]
            == pack_spec(
            idct_sample(raw@, tw@, th@, width as int, height as int, x, y),
            idct_sample(raw@, tw@, th@, width as int, height as int, x, y),
            #[trigger] idct_sample(raw@, tw@, th@, width as int, height as int, x, y),
        ) by {
            assert(res@[(y - 0) * (width as int) + x] == pack_spec(
                idct_sample(raw@, tw@, th@, width as int, height as int, x, y),
                idct_sample(raw@, tw@, th@, width as int, height as int, x, y),
                idct_sample(raw@, tw@, th@, width as int, height as int, x, y),
            ));
        }
    }
    Ok(res)
}

/// Law: the row partition composes.  Two worker outputs that cover the
/// row ranges `r0..r1` and `r1..r2` of the coefficient grid concatenate
/// to the output covering `r0..r2`, so joining workers in row order
/// assembles exactly the full transform.
pub proof fn lemma_rows_concat(
    plane: Seq<u8>,
    tw: Seq<i64>,
    th: Seq<i64>,
    w: int,
    h: int,
    r0: int,
    r1: int,
    r2: int,
    s1: Seq<i64>,
    s2: Seq<i64>,
)
    requires
        0 <= r0 <= r1 <= r2,
        0 <= w,
        s1.len() == (r1 - r0) * w,
        s2.len() == (r2 - r1) * w,
        forall|v: int, u: int|
            r0 <= v < r1 && 0 <= u < w ==> s1[(v - r0) * w + u] == #[trigger] dct_coeff(
                plane,
                tw,
                th,
                w,
                h,
                u,
                v,
            ),
        forall|v: int, u: int|
            r1 <= v < r2 && 0 <= u < w ==> s2[(v - r1) * w + u] == #[trigger] dct_coeff(
                plane,
                tw,
                th,
                w,
                h,
                u,
                v,
            ),
    ensures
        (s1 + s2).len() == (r2 - r0) * w,
        forall|v: int, u: int|
            r0 <= v < r2 && 0 <= u < w ==> (s1 + s2)[(v - r0) * w + u] == #[trigger] dct_coeff(
                plane,
                tw,
                th,
                w,
                h,
                u,
                v,
            ),
{
    assert((r1 - r0) * w + (r2 - r1) * w == (r2 - r0) * w) by (nonlinear_arith);
    assert forall|v: int, u: int|
        r0 <= v < r2 && 0 <= u < w implies (s1 + s2)[(v - r0) * w + u] == #[trigger] dct_coeff(
        plane,
        tw,
        th,
        w,
        h,
        u,
        v,
    ) by {
        if v < r1 {
            assert(0 <= (v - r0) * w + u < (r1 - r0) * w) by (nonlinear_arith)
                requires
                    0 <= v - r0,
                    v - r0 <= r1 - r0 - 1,
                    0 <= u < w,
            ;
            assert((s1 + s2)[(v - r0) * w + u] == s1[(v - r0) * w + u]);
        } else {
            assert((v - r0) * w + u == (r1 - r0) * w + ((v - r1) * w + u)) by (nonlinear_arith);
            assert(0 <= (v - r1) * w + u < (r2 - r1) * w) by (nonlinear_arith)
                requires
                    0 <= v - r1,
                    v - r1 <= r2 - r1 - 1,
                    0 <= u < w,
            ;
            assert((s1 + s2)[(r1 - r0) * w + ((v - r1) * w + u)] == s2[(v - r1) * w + u]);
        }
    }
}

/// Law: the zero-radius low-pass mask keeps only the direct-current
/// coefficient: every other coefficient is zeroed.
pub proof fn lemma_lowpass_zero_radius(c: Seq<i64>, w: int, k: int)
    requires
        1 <= w,
        0 <= k,
    ensures
        lowpass_mask_spec(c, w, 0, k) == if k == 0 {
            c[0]
        } else {
            0i64
        },
{
    vstd::arithmetic::div_mod::lemma_fundamental_div_mod(k, w);
    vstd::arithmetic::div_mod::lemma_mod_division_less_than_divisor(k, w);
    if k == 0 {
        vstd::arithmetic::div_mod::lemma_fundamental_div_mod_converse(0, w, 0, 0);
    } else {
        if k % w == 0 && k / w == 0 {
            assert(w * (k / w) == 0) by (nonlinear_arith)
                requires
                    k / w == 0,
            ;
        }
        assert((k % w) * (k % w) + (k / w) * (k / w) > 0) by (nonlinear_arith)
            requires
                0 <= k % w,
                0 <= k / w,
                k % w > 0 || k / w > 0,
        ;
    }
}

/// The inverse sum of a spectrum that is zero beyond the direct-current
/// coefficient collapses to that single term.
pub proof fn lemma_idct_sum_dc_only(
    raw: Seq<i64>,
    tw: Seq<i64>,
    th: Seq<i64>,
    w: int,
    h: int,
    x: int,
    y: int,
    k: int,
)
    requires
        1 <= w,
        forall|i: int| 1 <= i < raw.len() ==> #[trigger] raw[i] == 0,
        0 <= k <= raw.len(),
    ensures
        idct_sum(raw, tw, th, w, h, x, y, k) == if k <= 0 {
            0int
        } else {
            (raw[0] as int) * (tw[x] as int) * (th[y] as int)
        },
    decreases k,
{
    if k > 0 {
        lemma_idct_sum_dc_only(raw, tw, th, w, h, x, y, k - 1);
        if k == 1 {
            vstd::arithmetic::div_mod::lemma_fundamental_div_mod_converse(0, w, 0, 0);
            assert(((0int % w) * w + x == x) && ((0int / w) * h + y == y)) by (nonlinear_arith)
                requires
                    0int % w == 0,
                    0int / w == 0,
            ;
        } else {
            assert(raw[k - 1] == 0);
            assert((0int) * (tw[((k - 1) % w) * w + x] as int) * (th[((k - 1) / w) * h
                + y] as int) == 0) by (nonlinear_arith);
        }
    }
}

/// Law: a spectrum holding only its direct-current coefficient
/// reconstructs to a uniform image, whenever the two basis tables have a
/// constant first row, as a cosine basis does at frequency zero.
pub proof fn lemma_dc_reconstruction_uniform(
    raw: Seq<i64>,
    tw: Seq<i64>,
    th: Seq<i64>,
    w: int,
    h: int,
    x: int,
    y: int,
)
    requires
        1 <= w,
        1 <= h,
        raw.len() == w * h,
        forall|i: int| 1 <= i < raw.len() ==> #[trigger] raw[i] == 0,
        forall|i: int| 0 <= i < w ==> #[trigger] tw[i] == tw[0],
        forall|i: int| 0 <= i < h ==> #[trigger] th[i] == th[0],
        0 <= x < w,
        0 <= y < h,
    ensures
        idct_sample(raw, tw, th, w, h, x, y) == idct_sample(raw, tw, th, w, h, 0, 0),
{
    assert(1 <= w * h) by (nonlinear_arith)
        requires
            1 <= w,
            1 <= h,
    ;
    lemma_idct_sum_dc_only(raw, tw, th, w, h, x, y, w * h);
    lemma_idct_sum_dc_only(raw, tw, th, w, h, 0, 0, w * h);
    assert(tw[x] == tw[0] && th[y] == th[0]);
}


/// Law: the inverse row partition composes the same way.  Two worker
/// outputs that cover the sample-row ranges `r0..r1` and `r1..r2`
/// concatenate to the output covering `r0..r2`, so joining inverse
/// workers in row order assembles exactly the full reconstruction.
pub proof fn lemma_sample_rows_concat(
    raw: Seq<i64>,
    tw: Seq<i64>,
    th: Seq<i64>,
    w: int,
    h: int,
    r0: int,
    r1: int,
    r2: int,
    s1: Seq<u32>,
    s2: Seq<u32>,
)
    requires
        0 <= r0 <= r1 <= r2,
        0 <= w,
        s1.len() == (r1 - r0) * w,
        s2.len() == (r2 - r1) * w,
        forall|y: int, x: int|
            r0 <= y < r1 && 0 <= x < w ==> s1[(y - r0) * w + x] == pack_spec(
                idct_sample(raw, tw, th, w, h, x, y),
                idct_sample(raw, tw, th, w, h, x, y),
                #[trigger] idct_sample(raw, tw, th, w, h, x, y),
            ),
        forall|y: int, x: int|
            r1 <= y < r2 && 0 <= x < w ==> s2[(y - r1) * w + x] == pack_spec(
                idct_sample(raw, tw, th, w, h, x, y),
                idct_sample(raw, tw, th, w, h, x, y),
                #[trigger] idct_sample(raw, tw, th, w, h, x, y),
            ),
    ensures
        (s1 + s2).len() == (r2 - r0) * w,
        forall|y: int, x: int|
            r0 <= y < r2 && 0 <= x < w ==> (s1 + s2)[(y - r0) * w + x] == pack_spec(
                idct_sample(raw, tw, th, w, h, x, y),
                idct_sample(raw, tw, th, w, h, x, y),
                #[trigger] idct_sample(raw, tw, th, w, h, x, y),
            ),
{
    assert((r1 - r0) * w + (r2 - r1) * w == (r2 - r0) * w) by (nonlinear_arith);
    assert forall|y: int, x: int|
        r0 <= y < r2 && 0 <= x < w implies (s1 + s2)[(y - r0) * w + x] == pack_spec(
        idct_sample(raw, tw, th, w, h, x, y),
        idct_sample(raw, tw, th, w, h, x, y),
        #[trigger] idct_sample(raw, tw, th, w, h, x, y),
    ) by {
        if y < r1 {
            assert(0 <= (y - r0) * w + x < (r1 - r0) * w) by (nonlinear_arith)
                requires
                    0 <= y - r0,
                    y - r0 <= r1 - r0 - 1,
                    0 <= x < w,
            ;
            assert((s1 + s2)[(y - r0) * w + x] == s1[(y - r0) * w + x]);
        } else {
            assert((y - r0) * w + x == (r1 - r0) * w + ((y - r1) * w + x)) by (nonlinear_arith);
            assert(0 <= (y - r1) * w + x < (r2 - r1) * w) by (nonlinear_arith)
                requires
                    0 <= y - r1,
                    y - r1 <= r2 - r1 - 1,
                    0 <= x < w,
            ;
            assert((s1 + s2)[(r1 - r0) * w + ((y - r1) * w + x)] == s2[(y - r1) * w + x]);
        }
    }
}

} // verus!
