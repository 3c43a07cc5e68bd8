//! Error-diffusion dithering of a grayscale frame down to two levels: each
//! pixel is quantized to full or zero intensity, and the quantization error
//! is spread over the neighbors to the right and below, in the classic
//! 7/16, 3/16, 5/16, 1/16 pattern, scanning row-major.

use vstd::arithmetic::div_mod::lemma_fundamental_div_mod_converse;
use vstd::prelude::*;

verus! {

/// The views of an error buffer as mathematical integers.
pub open spec fn ints_of(s: Seq<i64>) -> Seq<int> {
    s.map_values(|x: i64| x as int)
}

/// The share of a quantization error handed to one neighbor: `e * k / 16`,
/// rounded toward zero as machine division of signed integers rounds.
pub open spec fn diffuse(e: int, k: int) -> int {
    if e >= 0 {
        (e * k) / 16
    } else {
        -(((-e) * k) / 16)
    }
}

/// One scan step per recursion: pixel `idx` (row-major) is quantized against
/// its accumulated error, and its own error is diffused to the unprocessed
/// neighbors that exist. `true` in the output means full intensity.
pub open spec fn spec_dither_from(
    g: Seq<u8>,
    w: int,
    h: int,
    idx: int,
    err: Seq<int>,
    out: Seq<bool>,
) -> Seq<bool>
    decreases w * h - idx,
{
    if idx < 0 || idx >= w * h {
        out
    } else {
        let row = idx / w;
        let col = idx % w;
        let lit = g[idx] + err[idx] >= 128;
        let e = if lit {
            g[idx] - 255
        } else {
            g[idx] as int
        };
        let err1 = if col + 1 < w {
            err.update(idx + 1, err[idx + 1] + diffuse(e, 7))
        } else {
            err
        };
        let err2 = if col > 0 && row + 1 < h {
            err1.update(idx + w - 1, err1[idx + w - 1] + diffuse(e, 3))
        } else {
            err1
        };
        let err3 = if row + 1 < h {
            err2.update(idx + w, err2[idx + w] + diffuse(e, 5))
        } else {
            err2
        };
        let err4 = if col + 1 < w && row + 1 < h {
            err3.update(idx + w + 1, err3[idx + w + 1] + diffuse(e, 1))
        } else {
            err3
        };
        spec_dither_from(g, w, h, idx + 1, err4, out.push(lit))
    }
}

/// The dithered frame: every pixel scanned from a zero error buffer.
pub open spec fn spec_dither(g: Seq<u8>, w: int, h: int) -> Seq<bool> {
    spec_dither_from(g, w, h, 0, Seq::new((w * h) as nat, |i: int| 0), Seq::empty())
}

proof fn lemma_diffuse_bound(e: int, k: int)
    requires
        -255 <= e <= 255,
        0 <= k <= 7,
    ensures
        -112 <= diffuse(e, k) <= 112,
{
    if e >= 0 {
        assert(0 <= e * k <= 1785) by (nonlinear_arith)
            requires
                0 <= e <= 255,
                0 <= k <= 7,
        ;
    } else {
        assert(0 <= (-e) * k <= 1785) by (nonlinear_arith)
            requires
                -255 <= e < 0,
                0 <= k <= 7,
        ;
    }
}

/// One diffusion share, exactly as the specification's rounded division.
fn diffuse_x(e: i64, k: u64) -> (d: i64)
    requires
        -255 <= e <= 255,
        k <= 7,
    ensures
        d == diffuse(e as int, k as int),
        -112 <= d <= 112,
{
    if e >= 0 {
        let eu: u64 = e as u64;
        proof {
            assert(eu * k <= 1785) by (nonlinear_arith)
                requires
                    eu <= 255,
                    k <= 7,
            ;
        }
        let p: u64 = eu * k;
        (p / 16) as i64
    } else {
        let m: i64 = -e;
        let mu: u64 = m as u64;
        proof {
            assert(mu * k <= 1785) by (nonlinear_arith)
                requires
                    mu <= 255,
                    k <= 7,
            ;
        }
        let p: u64 = mu * k;
        -((p / 16) as i64)
    }
}

/// Dithers a row-major grayscale frame to two levels; `true` in the result
/// means the pixel quantized to full intensity. The frame-size cap keeps the
/// accumulated error within machine range.
pub fn floyd_steinberg_dither(gray: &[u8], width: u32, height: u32) -> (r: Vec<bool>)
    requires
        gray@.len() == width * height,
        width * height <= 100000000,
    ensures
        r@ == spec_dither(gray@, width as int, height as int),
        r@.len() == gray@.len(),
{
    let w = width as usize;
    let h = height as usize;
    let n = gray.len();
    let mut err: Vec<i64> = Vec::new();
    while err.len() < n
        invariant
            err@.len() <= n,
            forall|i: int| 0 <= i < err@.len() ==> err@[i] == 0i64,
        decreases n - err@.len(),
    {
        err.push(0);
    }
    let mut out: Vec<bool> = Vec::new();
    let mut idx: usize = 0;
    let mut row: usize = 0;
    let mut col: usize = 0;
    proof {
        assert(ints_of(err@) =~= Seq::new((width * height) as nat, |i: int| 0));
        assert(out@ =~= Seq::<bool>::empty());
        if w == 0 || h == 0 {
            assert(n == 0) by (nonlinear_arith)
                requires
                    n == w * h,
                    w == 0 || h == 0,
            ;
        }
    }
    while idx < n
        invariant
            n == gray@.len(),
            n == width * height,
            n <= 100000000,
            w == width,
            h == height,
            idx <= n,
            idx == row * w + col,
            col < w || idx == n,
            row < h || idx == n,
            err@.len() == n,
            out@.len() == idx,
            forall|i: int| 0 <= i < n ==> -448 * (idx as int) <= #[trigger] err@[i] <= 448 * (
            idx as int),
            spec_dither(gray@, width as int, height as int) == spec_dither_from(
                gray@,
                width as int,
                height as int,
                idx as int,
                ints_of(err@),
                out@,
            ),
        decreases n - idx,
    {
        proof {
            assert(w <= n) by (nonlinear_arith)
                requires
                    n == w * h,
                    idx < n,
                    idx >= 0,
                    w >= 0,
                    h >= 0,
            ;
            lemma_fundamental_div_mod_converse(idx as int, w as int, row as int, col as int);
        }
        let ghost e0 = ints_of(err@);
        let ghost out0 = out@;
        let old_px = gray[idx];
        let e_in = err[idx];
        let cur: i64 = old_px as i64 + e_in;
        let lit = cur >= 128;
        let e: i64 = if lit {
            old_px as i64 - 255
        } else {
            old_px as i64
        };
        out.push(lit);
        if col + 1 < w {
            let j = idx + 1;
            proof {
                assert(j < n) by (nonlinear_arith)
                    requires
                        n == w * h,
                        idx == row * w + col,
                        j == idx + 1,
                        col + 1 < w,
                        row < h,
                        0 <= row,
                        0 <= col,
                ;
            }
            let t = err[j];
            let d = diffuse_x(e, 7);
            err[j] = t + d;
        }
        let ghost e1 = ints_of(err@);
        if col > 0 && row + 1 < h {
            let j = idx + w - 1;
            proof {
                assert(j < n) by (nonlinear_arith)
                    requires
                        n == w * h,
                        idx == row * w + col,
                        j == idx + w - 1,
                        0 < col < w,
                        row + 1 < h,
                        0 <= row,
                ;
            }
            let t = err[j];
            let d = diffuse_x(e, 3);
            err[j] = t + d;
        }
        let ghost e2 = ints_of(err@);
        if row + 1 < h {
            let j = idx + w;
            proof {
                assert(j < n) by (nonlinear_arith)
                    requires
                        n == w * h,
                        idx == row * w + col,
                        j == idx + w,
                        0 <= col < w,
                        row + 1 < h,
                        0 <= row,
                ;
            }
            let t = err[j];
            let d = diffuse_x(e, 5);
            err[j] = t + d;
        }
        let ghost e3 = ints_of(err@);
        if col + 1 < w && row + 1 < h {
            let j = idx + w + 1;
            proof {
                assert(j < n) by (nonlinear_arith)
                    requires
                        n == w * h,
                        idx == row * w + col,
                        j == idx + w + 1,
                        col + 1 < w,
                        row + 1 < h,
                        0 <= row,
                        0 <= col,
                ;
            }
            let t = err[j];
            let d = diffuse_x(e, 1);
            err[j] = t + d;
        }
        let ghost e4 = ints_of(err@);
        proof {
            let gi = gray@[idx as int] as int;
            let ii = idx as int;
            let wi = w as int;
            let hi = h as int;
            assert(e0[ii] == e_in);
            assert(e1 =~= if col + 1 < wi {
                e0.update(ii + 1, e0[ii + 1] + diffuse(e as int, 7))
            } else {
                e0
            });
            assert(e2 =~= if col > 0 && row + 1 < hi {
                e1.update(ii + wi - 1, e1[ii + wi - 1] + diffuse(e as int, 3))
            } else {
                e1
            });
            assert(e3 =~= if row + 1 < hi {
                e2.update(ii + wi, e2[ii + wi] + diffuse(e as int, 5))
            } else {
                e2
            });
            assert(e4 =~= if col + 1 < wi && row + 1 < hi {
                e3.update(ii + wi + 1, e3[ii + wi + 1] + diffuse(e as int, 1))
            } else {
                e3
            });
            assert(spec_dither_from(gray@, wi, hi, ii, e0, out0) == spec_dither_from(
                gray@,
                wi,
                hi,
                ii + 1,
                e4,
                out0.push(lit),
            ));
            lemma_diffuse_bound(e as int, 7);
            lemma_diffuse_bound(e as int, 3);
            lemma_diffuse_bound(e as int, 5);
            lemma_diffuse_bound(e as int, 1);
            assert forall|i: int| 0 <= i < n implies -448 * (ii + 1) <= #[trigger] err@[i] <= 448
                * (ii + 1) by {
                assert(-448 * ii <= e0[i] <= 448 * ii);
                assert(-448 * ii - 112 <= e1[i] <= 448 * ii + 112);
                assert(-448 * ii - 224 <= e2[i] <= 448 * ii + 224);
                assert(-448 * ii - 336 <= e3[i] <= 448 * ii + 336);
                assert(-448 * ii - 448 <= e4[i] <= 448 * ii + 448);
                assert(err@[i] == e4[i]);
            }
        }
        idx = idx + 1;
        col = col + 1;
        if col == w {
            col = 0;
            row = row + 1;
            proof {
                assert(idx == (row as int) * (w as int) + col) by (nonlinear_arith)
                    requires
                        idx == (row - 1) * w + w,
                        col == 0,
                        row >= 1,
                        w >= 0,
                ;
                if row == h {
                    assert(idx == n) by (nonlinear_arith)
                        requires
                            idx == row * w + col,
                            col == 0,
                            row == h,
                            n == w * h,
                    ;
                }
            }
        }
    }
    proof {
        assert(spec_dither_from(
            gray@,
            width as int,
            height as int,
            idx as int,
            ints_of(err@),
            out@,
        ) == out@);
    }
    out
}

} // verus!
