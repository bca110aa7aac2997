//! Circular brush footprint rasterizer: a distance-threshold fill with a
//! diameter-dependent bias, matching the expected discrete circle shapes
//! at small diameters.

use vstd::prelude::*;

use crate::geom::Rgba8;

verus! {

/// Twice the effective radius of a circular footprint of the given
/// whole-pixel diameter.  The radius is half the diameter less a bias of
/// one half pixel for diameters above two and up to three; with whole
/// diameters only diameter three carries the bias.
pub open spec fn radius2x(diameter: int) -> int {
    if 2 < diameter <= 3 {
        diameter - 1
    } else {
        diameter
    }
}

/// Whether the pixel at column `x`, row `y` lies within the circular
/// footprint centered at `(cx2 / 2, cy2 / 2)` — the center given in
/// half-pixel units — with the given whole-pixel diameter: the distance
/// from the pixel to the center is at most the effective radius.
pub open spec fn painted(x: int, y: int, cx2: int, cy2: int, diameter: int) -> bool {
    let dx = 2 * x - cx2;
    let dy = 2 * y - cy2;
    dx * dx + dy * dy <= radius2x(diameter) * radius2x(diameter)
}

/// Paint a circle into a row-major pixel buffer of `w` columns and `h`
/// rows: every pixel whose center lies within the circular footprint is
/// set to the given color, all other pixels keep their value.  The
/// center is given in half-pixel units, so centers on pixel corners are
/// exact.
pub fn paint(
    pixels: &mut Vec<Rgba8>,
    w: usize,
    h: usize,
    cx2: i32,
    cy2: i32,
    diameter: u32,
    color: Rgba8,
)
    requires
        old(pixels)@.len() == (w as int) * (h as int),
        w <= 0x10_0000,
        h <= 0x10_0000,
        -0x4000_0000 <= cx2 <= 0x4000_0000,
        -0x4000_0000 <= cy2 <= 0x4000_0000,
        diameter <= 0x4000_0000,
    ensures
        final(pixels)@.len() == old(pixels)@.len(),
        forall|x: int, y: int|
            0 <= x < w && 0 <= y < h ==> final(pixels)@[y * (w as int) + x] == (
            if painted(x, y, cx2 as int, cy2 as int, diameter as int) {
                color
            } else {
                old(pixels)@[y * (w as int) + x]
            }),
{
    let ghost wi = w as int;
    let ghost hi = h as int;
    let ghost orig = pixels@;
    let n = pixels.len();
    let r2x: i64 = if 2 < diameter && diameter <= 3 {
        (diameter - 1) as i64
    } else {
        diameter as i64
    };
    proof {
        assert(r2x * r2x <= 0x4000_0000i64 * 0x4000_0000i64) by (nonlinear_arith)
            requires 0 <= r2x <= 0x4000_0000i64;
    }
    let rr: i64 = r2x * r2x;
    let mut y: usize = 0;
    while y < h
        invariant
            0 <= y <= h,
            w <= 0x10_0000,
            h <= 0x10_0000,
            -0x4000_0000 <= cx2 <= 0x4000_0000,
            -0x4000_0000 <= cy2 <= 0x4000_0000,
            wi == w as int,
            hi == h as int,
            n == wi * hi,
            rr == radius2x(diameter as int) * radius2x(diameter as int),
            pixels@.len() == wi * hi,
            forall|a: int, b: int|
                0 <= a < wi && 0 <= b < hi ==> #[trigger] pixels@[b * wi + a] == (
                if b < y && painted(a, b, cx2 as int, cy2 as int, diameter as int) {
                    color
                } else {
                    orig[b * wi + a]
                }),
        decreases h - y,
    {
        let mut x: usize = 0;
        while x < w
            invariant
                0 <= y < h,
                0 <= x <= w,
                w <= 0x10_0000,
                h <= 0x10_0000,
                -0x4000_0000 <= cx2 <= 0x4000_0000,
                -0x4000_0000 <= cy2 <= 0x4000_0000,
                wi == w as int,
                hi == h as int,
                n == wi * hi,
                rr == radius2x(diameter as int) * radius2x(diameter as int),
                pixels@.len() == wi * hi,
                forall|a: int, b: int|
                    0 <= a < wi && 0 <= b < hi ==> #[trigger] pixels@[b * wi + a] == (
                    if (b < y || (b == y && a < x)) && painted(
                        a,
                        b,
                        cx2 as int,
                        cy2 as int,
                        diameter as int,
                    ) {
                        color
                    } else {
                        orig[b * wi + a]
                    }),
            decreases w - x,
        {
            let dx: i64 = 2 * (x as i64) - (cx2 as i64);
            let dy: i64 = 2 * (y as i64) - (cy2 as i64);
            proof {
                assert(dx * dx + dy * dy <= 0x4030_0000i64 * 0x4030_0000i64 * 2) by (
                nonlinear_arith)
                    requires
                        -0x4030_0000i64 <= dx <= 0x4030_0000i64,
                        -0x4030_0000i64 <= dy <= 0x4030_0000i64,
                ;
                assert(0 <= dx * dx && 0 <= dy * dy) by (nonlinear_arith);
            }
            if dx * dx + dy * dy <= rr {
                proof {
                    assert((y as int) * wi + (x as int) < hi * wi) by (nonlinear_arith)
                        requires 0 <= (y as int) && (y as int) < hi, 0 <= (x as int) && (x as int) < wi;
                    assert(0 <= (y as int) * wi) by (nonlinear_arith)
                        requires 0 <= y as int, 0 <= wi;
                    assert(hi * wi == wi * hi) by (nonlinear_arith);
                }
                let idx = y * w + x;
                let ghost before = pixels@;
                pixels[idx] = color;
                proof {
                    assert(painted(x as int, y as int, cx2 as int, cy2 as int, diameter as int));
                    assert forall|a: int, b: int| 0 <= a < wi && 0 <= b < hi
                        implies #[trigger] pixels@[b * wi + a] == (
                        if (b < y || (b == y && a < x + 1)) && painted(
                            a,
                            b,
                            cx2 as int,
                            cy2 as int,
                            diameter as int,
                        ) {
                            color
                        } else {
                            orig[b * wi + a]
                        }) by {
                        assert(0 <= b * wi + a < wi * hi) by (nonlinear_arith)
                            requires 0 <= a < wi, 0 <= b < hi;
                        if b * wi + a == (y as int) * wi + (x as int) {
                            assert(a == x as int && b == y as int) by (nonlinear_arith)
                                requires
                                    b * wi + a == (y as int) * wi + (x as int),
                                    0 <= a < wi,
                                    0 <= (x as int) && (x as int) < wi,
                                    1 <= wi,
                            ;
                        } else {
                            assert(pixels@[b * wi + a] == before[b * wi + a]);
                            assert(before[b * wi + a] == (if (b < y || (b == y && a < x)) && painted(
                                a,
                                b,
                                cx2 as int,
                                cy2 as int,
                                diameter as int,
                            ) {
                                color
                            } else {
                                orig[b * wi + a]
                            }));
                        }
                    }
                }
            } else {
                proof {
                    assert(!painted(x as int, y as int, cx2 as int, cy2 as int, diameter as int));
                    assert forall|a: int, b: int| 0 <= a < wi && 0 <= b < hi
                        implies #[trigger] pixels@[b * wi + a] == (
                        if (b < y || (b == y && a < x + 1)) && painted(
                            a,
                            b,
                            cx2 as int,
                            cy2 as int,
                            diameter as int,
                        ) {
                            color
                        } else {
                            orig[b * wi + a]
                        }) by {
                        assert(0 <= b * wi + a < wi * hi) by (nonlinear_arith)
                            requires 0 <= a < wi, 0 <= b < hi;
                        assert(pixels@[b * wi + a] == (if (b < y || (b == y && a < x)) && painted(
                            a,
                            b,
                            cx2 as int,
                            cy2 as int,
                            diameter as int,
                        ) {
                            color
                        } else {
                            orig[b * wi + a]
                        }));
                    }
                }
            }
            x = x + 1;
        }
        y = y + 1;
    }
}

} // verus!
