//! The raw device-independent-bitmap decoder: the last-resort image read of
//! the capture chain, parsing the header and pixel rows that the operating
//! system hands over as plain bytes. The caller supplies the bytes; this
//! code only computes.

use vstd::prelude::*;

verus! {

pub open spec fn spec_u16_le(d: Seq<u8>, i: int) -> nat {
    d[i] as nat + 256 * (d[i + 1] as nat)
}

pub open spec fn spec_u32_le(d: Seq<u8>, i: int) -> nat {
    d[i] as nat + 256 * (d[i + 1] as nat) + 65536 * (d[i + 2] as nat) + 16777216 * (d[i
        + 3] as nat)
}

/// The magnitude of a 32-bit two's-complement value.
pub open spec fn spec_abs_i32(u: nat) -> nat {
    if u >= 0x8000_0000 {
        (0x1_0000_0000 - u) as nat
    } else {
        u
    }
}

/// Where the pixel rows start: after the header, with a further fixed skip
/// when explicit channel masks are present.
pub open spec fn spec_dib_pixel_offset(d: Seq<u8>) -> nat {
    if spec_u32_le(d, 16) == 3 && spec_u16_le(d, 14) >= 16 {
        spec_u32_le(d, 0) + 12
    } else {
        spec_u32_le(d, 0)
    }
}

/// A bitmap this decoder accepts: a full header, positive width, non-zero
/// height, a 24- or 32-bit pixel format, pixel data beginning inside the
/// buffer, and a pixel buffer of fewer than 2 GiB bytes.
pub open spec fn spec_dib_valid(d: Seq<u8>) -> bool {
    &&& d.len() >= 40
    &&& 1 <= spec_u32_le(d, 4) < 0x8000_0000
    &&& spec_abs_i32(spec_u32_le(d, 8)) != 0
    &&& (spec_u16_le(d, 14) == 24 || spec_u16_le(d, 14) == 32)
    &&& spec_dib_pixel_offset(d) < d.len()
    &&& 4 * spec_u32_le(d, 4) * spec_abs_i32(spec_u32_le(d, 8)) <= 0x7FFF_FFFF
}

fn read_u16_le(d: &[u8], i: usize) -> (r: u16)
    requires
        i + 2 <= d@.len(),
    ensures
        r as nat == spec_u16_le(d@, i as int),
{
    d[i] as u16 + 256 * (d[i + 1] as u16)
}

fn read_u32_le(d: &[u8], i: usize) -> (r: u32)
    requires
        i + 4 <= d@.len(),
    ensures
        r as nat == spec_u32_le(d@, i as int),
{
    d[i] as u32 + 256 * (d[i + 1] as u32) + 65536 * (d[i + 2] as u32) + 16777216 * (d[i
        + 3] as u32)
}

/// The pre-correction output byte for pixel (`x`, `y`), channel `c`:
/// rows are emitted top-down (flipping bottom-up sources), channels are
/// reordered from BGR(A) to RGB(A), 24-bit rows are padded to 4 bytes and
/// get alpha 255, and bytes the buffer does not cover leave the pixel
/// black: transparent in 32-bit mode, opaque in 24-bit mode.
pub open spec fn spec_dib_px(d: Seq<u8>, x: int, y: int, c: int) -> u8 {
    let w = spec_u32_le(d, 4) as int;
    let h = spec_abs_i32(spec_u32_le(d, 8)) as int;
    let topdown = spec_u32_le(d, 8) >= 0x8000_0000;
    let bpp = if spec_u16_le(d, 14) == 32 {
        4int
    } else {
        3int
    };
    let rowb = if bpp == 4 {
        4 * w
    } else {
        4 * ((3 * w + 3) / 4)
    };
    let po = spec_dib_pixel_offset(d) as int;
    let src_y = if topdown {
        y
    } else {
        h - 1 - y
    };
    let si = po + src_y * rowb + x * bpp;
    if si + (bpp - 1) < d.len() {
        if c == 0 {
            d[si + 2]
        } else if c == 1 {
            d[si + 1]
        } else if c == 2 {
            d[si]
        } else if bpp == 4 {
            d[si + 3]
        } else {
            255
        }
    } else if bpp == 4 {
        0
    } else if c == 3 {
        255
    } else {
        0
    }
}

/// The pre-correction output byte at flat index `k` of the RGBA buffer.
pub open spec fn spec_dib_byte(d: Seq<u8>, k: int) -> u8 {
    let w = spec_u32_le(d, 4) as int;
    let px = k / 4;
    spec_dib_px(d, px % w, px / w, k % 4)
}

/// A 32-bit source whose alpha channel is entirely zero; such images are
/// made fully opaque.
pub open spec fn spec_dib_alpha_all_zero(d: Seq<u8>) -> bool {
    let w = spec_u32_le(d, 4) as int;
    let h = spec_abs_i32(spec_u32_le(d, 8)) as int;
    spec_u16_le(d, 14) == 32 && forall|q: int|
        0 <= q < w * h ==> #[trigger] spec_dib_byte(d, 4 * q + 3) == 0
}

/// The final output byte at flat index `k`, after the zero-alpha-to-opaque
/// correction.
pub open spec fn spec_dib_rgba(d: Seq<u8>, k: int) -> u8 {
    if spec_dib_alpha_all_zero(d) && k % 4 == 3 {
        255
    } else {
        spec_dib_byte(d, k)
    }
}

proof fn lemma_dib_byte_at(d: Seq<u8>, x: int, y: int, c: int)
    requires
        0 <= x < spec_u32_le(d, 4),
        0 <= y,
        0 <= c < 4,
    ensures
        spec_dib_byte(d, 4 * (y * (spec_u32_le(d, 4) as int) + x) + c) == spec_dib_px(d, x, y, c),
{
    let w = spec_u32_le(d, 4) as int;
    let k = 4 * (y * w + x) + c;
    assert(k / 4 == y * w + x && k % 4 == c) by (nonlinear_arith)
        requires
            0 <= c < 4,
            k == 4 * (y * w + x) + c,
            y * w + x >= 0,
    ;
    assert((y * w + x) % w == x && (y * w + x) / w == y) by (nonlinear_arith)
        requires
            0 <= x < w,
            0 <= y,
    ;
}

#[verifier::spinoff_prover]
proof fn lemma_rgba_extend(d: Seq<u8>, prev: Seq<u8>, b0: u8, b1: u8, b2: u8, b3: u8, x: int, y: int)
    requires
        0 <= x < spec_u32_le(d, 4),
        0 <= y,
        prev.len() == 4 * (y * (spec_u32_le(d, 4) as int) + x),
        forall|k: int| 0 <= k < prev.len() ==> prev[k] == spec_dib_byte(d, k),
        b0 == spec_dib_px(d, x, y, 0),
        b1 == spec_dib_px(d, x, y, 1),
        b2 == spec_dib_px(d, x, y, 2),
        b3 == spec_dib_px(d, x, y, 3),
    ensures
        forall|k: int|
            0 <= k < prev.len() + 4 ==> #[trigger] prev.push(b0).push(b1).push(b2).push(b3)[k]
                == spec_dib_byte(d, k),
{
    let full = prev.push(b0).push(b1).push(b2).push(b3);
    lemma_dib_byte_at(d, x, y, 0);
    lemma_dib_byte_at(d, x, y, 1);
    lemma_dib_byte_at(d, x, y, 2);
    lemma_dib_byte_at(d, x, y, 3);
    assert forall|k: int| 0 <= k < prev.len() + 4 implies #[trigger] full[k] == spec_dib_byte(
        d,
        k,
    ) by {
        if k < prev.len() {
            assert(full[k] == prev[k]);
        } else {
            assert(k == prev.len() + (k - prev.len()) && 0 <= k - prev.len() < 4);
        }
    }
}

/// Decodes a raw clipboard bitmap into RGBA pixels, top row first. Only
/// 32-bit BGRA and 24-bit BGR forms are accepted; anything else yields
/// nothing. A 32-bit image whose alpha channel is entirely zero is made
/// fully opaque. Bytes the buffer does not cover leave their pixels black:
/// transparent in 32-bit mode, opaque in 24-bit mode.
#[verifier::rlimit(100)]
#[verifier::spinoff_prover]
pub fn read_clipboard_image_win32(data: &[u8]) -> (r: Option<(u32, u32, Vec<u8>)>)
    ensures
        match r {
            Some((w, h, rgba)) => spec_dib_valid(data@) && w as nat == spec_u32_le(data@, 4)
                && h as nat == spec_abs_i32(spec_u32_le(data@, 8)) && rgba@.len() == 4 * w * h
                && forall|k: int| 0 <= k < rgba@.len() ==> rgba@[k] == spec_dib_rgba(data@, k),
            None => !spec_dib_valid(data@),
        },
{
    if data.len() < 40 {
        return None;
    }
    let header_size = read_u32_le(data, 0);
    let width_u = read_u32_le(data, 4);
    let height_u = read_u32_le(data, 8);
    let bit_count = read_u16_le(data, 14);
    let compression = read_u32_le(data, 16);
    if width_u == 0 || width_u >= 0x8000_0000 {
        return None;
    }
    let top_down = height_u >= 0x8000_0000;
    let h_abs: u32 = if top_down {
        ((0x1_0000_0000u64 - height_u as u64) as u32)
    } else {
        height_u
    };
    proof {
        assert(h_abs as nat == spec_abs_i32(spec_u32_le(data@, 8)));
    }
    if h_abs == 0 {
        return None;
    }
    if !(bit_count == 24 || bit_count == 32) {
        return None;
    }
    let pixel_offset: u64 = if compression == 3 && bit_count >= 16 {
        header_size as u64 + 12
    } else {
        header_size as u64
    };
    if pixel_offset >= data.len() as u64 {
        return None;
    }
    let w = width_u as u64;
    let h = h_abs as u64;
    proof {
        assert(h <= 0x8000_0000);
        assert(4 * w * h <= 4 * 0x7FFF_FFFF * 0x8000_0000) by (nonlinear_arith)
            requires
                w <= 0x7FFF_FFFF,
                h <= 0x8000_0000,
        ;
    }
    let total: u64 = 4 * w * h;
    if total > 0x7FFF_FFFF {
        return None;
    }
    proof {
        assert(w * h <= 0x2000_0000) by (nonlinear_arith)
            requires
                4 * w * h <= 0x7FFF_FFFF,
        ;
    }
    let po = pixel_offset as usize;
    let dlen = data.len();
    let plen = dlen - po;
    let bpp: u64 = if bit_count == 32 {
        4
    } else {
        3
    };
    let rb0: u64 = 3 * w + 3;
    let row_bytes: u64 = if bit_count == 32 {
        4 * w
    } else {
        rb0 & !3u64
    };
    proof {
        assert(rb0 & !3u64 <= rb0) by (bit_vector);
        assert(rb0 & !3u64 == 4 * (rb0 / 4)) by (bit_vector);
        assert(row_bytes <= 4 * w + 3);
    }
    let ghost d = data@;
    proof {
        assert(spec_u32_le(d, 4) as int == w as int);
        assert(spec_abs_i32(spec_u32_le(d, 8)) as int == h as int);
        assert((spec_u32_le(d, 8) >= 0x8000_0000) == top_down);
        assert((if spec_u16_le(d, 14) == 32 {
            4int
        } else {
            3int
        }) == bpp as int);
        assert(spec_dib_pixel_offset(d) as int == po as int);
        assert((if bpp == 4 {
            4 * (w as int)
        } else {
            4 * (((3 * (w as int)) + 3) / 4)
        }) == row_bytes as int);
    }
    let mut rgba: Vec<u8> = Vec::new();
    let mut y: u64 = 0;
    while y < h
        invariant
            d == data@,
            h == h_abs as u64,
            w == width_u as u64,
            spec_u32_le(d, 4) as int == w as int,
            spec_abs_i32(spec_u32_le(d, 8)) as int == h as int,
            (spec_u32_le(d, 8) >= 0x8000_0000) == top_down,
            (if spec_u16_le(d, 14) == 32 {
                4int
            } else {
                3int
            }) == bpp as int,
            spec_dib_pixel_offset(d) as int == po as int,
            (if bpp == 4 {
                4 * (w as int)
            } else {
                4 * (((3 * (w as int)) + 3) / 4)
            }) == row_bytes as int,
            1 <= w < 0x8000_0000,
            1 <= h <= 0x8000_0000,
            w * h <= 0x2000_0000,
            y <= h,
            bpp == 3 || bpp == 4,
            row_bytes <= 4 * w + 3,
            po <= dlen,
            dlen == data@.len(),
            plen == dlen - po,
            rgba@.len() == 4 * w * y,
            forall|k: int| 0 <= k < rgba@.len() ==> rgba@[k] == spec_dib_byte(d, k),
        decreases h - y,
    {
        let src_y: u64 = if top_down {
            y
        } else {
            h - 1 - y
        };
        let mut x: u64 = 0;
        while x < w
            invariant
                d == data@,
                spec_u32_le(d, 4) as int == w as int,
                spec_abs_i32(spec_u32_le(d, 8)) as int == h as int,
                (spec_u32_le(d, 8) >= 0x8000_0000) == top_down,
                (if spec_u16_le(d, 14) == 32 {
                    4int
                } else {
                    3int
                }) == bpp as int,
                spec_dib_pixel_offset(d) as int == po as int,
                (if bpp == 4 {
                    4 * (w as int)
                } else {
                    4 * (((3 * (w as int)) + 3) / 4)
                }) == row_bytes as int,
                1 <= w < 0x8000_0000,
                1 <= h <= 0x8000_0000,
                w * h <= 0x2000_0000,
                y < h,
                src_y as int == (if top_down {
                    y as int
                } else {
                    h - 1 - y as int
                }),
                src_y < h,
                x <= w,
                bpp == 3 || bpp == 4,
                row_bytes <= 4 * w + 3,
                po <= dlen,
                dlen == data@.len(),
                plen == dlen - po,
                rgba@.len() == 4 * w * y + 4 * x,
                forall|k: int| 0 <= k < rgba@.len() ==> rgba@[k] == spec_dib_byte(d, k),
            decreases w - x,
        {
            proof {
                assert(src_y * row_bytes + x * bpp <= 4 * (w * h) + 3 * h + 4 * w)
                    by (nonlinear_arith)
                    requires
                        src_y < h,
                        x < w,
                        bpp <= 4,
                        row_bytes <= 4 * w + 3,
                        w >= 1,
                        h >= 1,
                ;
            }
            let si_u64: u64 = src_y * row_bytes + x * bpp;
            let in_bounds = si_u64 + (bpp - 1) < plen as u64;
            let bytes: (u8, u8, u8, u8) = if in_bounds {
                proof {
                    assert(si_u64 < plen as u64);
                    assert(po + si_u64 + (bpp - 1) < dlen);
                }
                let si = po + si_u64 as usize;
                proof {
                    assert(si + (bpp - 1) < dlen);
                }
                if bpp == 4 {
                    (data[si + 2], data[si + 1], data[si], data[si + 3])
                } else {
                    (data[si + 2], data[si + 1], data[si], 255u8)
                }
            } else {
                if bpp == 4 {
                    (0u8, 0u8, 0u8, 0u8)
                } else {
                    (0u8, 0u8, 0u8, 255u8)
                }
            };
            let ghost prev = rgba@;
            rgba.push(bytes.0);
            rgba.push(bytes.1);
            rgba.push(bytes.2);
            rgba.push(bytes.3);
            proof {
                let xi = x as int;
                let yi = y as int;
                assert(prev.len() == 4 * (yi * (spec_u32_le(d, 4) as int) + xi))
                    by (nonlinear_arith)
                    requires
                        prev.len() == 4 * (w as int) * yi + 4 * xi,
                        spec_u32_le(d, 4) as int == w as int,
                ;
                assert(bytes.0 == spec_dib_px(d, xi, yi, 0));
                assert(bytes.1 == spec_dib_px(d, xi, yi, 1));
                assert(bytes.2 == spec_dib_px(d, xi, yi, 2));
                assert(bytes.3 == spec_dib_px(d, xi, yi, 3));
                lemma_rgba_extend(d, prev, bytes.0, bytes.1, bytes.2, bytes.3, xi, yi);
                assert(rgba@ =~= prev.push(bytes.0).push(bytes.1).push(bytes.2).push(bytes.3));
            }
            x = x + 1;
        }
        y = y + 1;
        proof {
            assert(4 * w * (y - 1) + 4 * w == 4 * w * y) by (nonlinear_arith);
        }
    }
    proof {
        assert(rgba@.len() == 4 * w * h);
        assert(rgba@.len() == 4 * (width_u as u64) * (h_abs as u64));
    }
    if bit_count == 32 {
        let mut all_zero = true;
        let mut q: u64 = 0;
        let wh: u64 = w * h;
        proof {
            assert(rgba@.len() == 4 * (wh as int)) by (nonlinear_arith)
                requires
                    rgba@.len() == 4 * (w as int) * (h as int),
                    wh as int == (w as int) * (h as int),
            ;
        }
        while q < wh
            invariant
                d == data@,
                wh == w * h,
                w * h <= 0x2000_0000,
                q <= wh,
                rgba@.len() == 4 * wh,
                forall|k: int| 0 <= k < rgba@.len() ==> rgba@[k] == spec_dib_byte(d, k),
                all_zero == forall|p: int|
                    0 <= p < q ==> #[trigger] spec_dib_byte(d, 4 * p + 3) == 0,
            decreases wh - q,
        {
            let idx = (4 * q + 3) as usize;
            proof {
                assert(4 * (q as int) + 3 < rgba@.len()) by (nonlinear_arith)
                    requires
                        q < wh,
                        rgba@.len() == 4 * (wh as int),
                ;
            }
            let ghost old_all = all_zero;
            if rgba[idx] != 0 {
                all_zero = false;
            }
            proof {
                assert(rgba@[4 * (q as int) + 3] == spec_dib_byte(d, 4 * (q as int) + 3));
                if all_zero {
                    assert forall|p: int| 0 <= p < q + 1 implies #[trigger] spec_dib_byte(
                        d,
                        4 * p + 3,
                    ) == 0 by {
                        if p == q as int {
                            assert(rgba@[4 * (q as int) + 3] == 0);
                        }
                    }
                } else {
                    if old_all {
                        assert(spec_dib_byte(d, 4 * (q as int) + 3) != 0);
                    } else {
                        let p0 = choose|p: int|
                            0 <= p < q && #[trigger] spec_dib_byte(d, 4 * p + 3) != 0;
                        assert(0 <= p0 < q + 1 && spec_dib_byte(d, 4 * p0 + 3) != 0);
                    }
                }
            }
            q = q + 1;
        }
        proof {
            assert(all_zero == spec_dib_alpha_all_zero(d));
        }
        if all_zero {
            let mut fixed: Vec<u8> = Vec::new();
            let mut j: usize = 0;
            while j < rgba.len()
                invariant
                    d == data@,
                    j <= rgba@.len(),
                    rgba@.len() == 4 * w * h,
                    forall|k: int| 0 <= k < rgba@.len() ==> rgba@[k] == spec_dib_byte(d, k),
                    spec_dib_alpha_all_zero(d),
                    fixed@.len() == j,
                    forall|k: int| 0 <= k < j ==> #[trigger] fixed@[k] == spec_dib_rgba(d, k),
                decreases rgba@.len() - j,
            {
                if j % 4 == 3 {
                    fixed.push(255);
                } else {
                    fixed.push(rgba[j]);
                }
                j = j + 1;
            }
            return Some((width_u, h_abs, fixed));
        }
        proof {
            assert(forall|k: int| 0 <= k < rgba@.len() ==> rgba@[k] == spec_dib_rgba(d, k));
        }
        return Some((width_u, h_abs, rgba));
    }
    proof {
        assert(!spec_dib_alpha_all_zero(d));
        assert(forall|k: int| 0 <= k < rgba@.len() ==> rgba@[k] == spec_dib_rgba(d, k));
    }
    Some((width_u, h_abs, rgba))
}

} // verus!
