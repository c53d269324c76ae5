//! Laws of the bit-plane engine, proved once and for all grids: what an
//! all-zero or all-ones source pixel renders as, how `flip_x` rearranges the
//! tiles, and that decomposition is deterministic.

use crate::color::Color;
use crate::engine::{
    bit_is_set, is_decomposition, out_pixel, out_pos, plane_pixel, OutputGrid, SourceGrid,
};
use vstd::arithmetic::div_mod::{
    lemma_div_pos_is_pos, lemma_fundamental_div_mod, lemma_fundamental_div_mod_converse,
    lemma_mod_bound, lemma_multiply_divide_lt,
};
use vstd::arithmetic::power2::{lemma2_to64, pow2};
use vstd::bits::{lemma_u32_pow2_no_overflow, lemma_u32_shl_is_mul};
use vstd::prelude::*;
use vstd::relations::injective_on;
use vstd::set_lib::{lemma_int_range, lemma_len_subset, lemma_map_size, set_int_range};

verus! {

/// A source pixel whose every channel is zero renders as background in all
/// of its tile positions: no bit of any of its channels is set.
pub proof fn lemma_zero_pixel_background(
    g: SourceGrid,
    fg: Color,
    bg: Color,
    flip_x: bool,
    flip_y: bool,
    out: OutputGrid,
    x: int,
    y: int,
)
    requires
        g.wf(),
        g.width > 0,
        g.height > 0,
        g.channels > 0,
        g.bits > 0,
        is_decomposition(g, fg, bg, flip_x, flip_y, out),
        0 <= x < g.width,
        0 <= y < g.height,
        forall|i: int| 0 <= i < g.channels ==> #[trigger] g.chan(x, y, i) == 0,
    ensures
        forall|i: int, j: int|
            0 <= i < g.channels && 0 <= j < g.bits ==> out.pixels@[#[trigger] out_pos(
                g,
                flip_x,
                flip_y,
                x,
                y,
                i,
                j,
            )] == bg,
{
    assert forall|i: int, j: int|
        0 <= i < g.channels && 0 <= j < g.bits implies out.pixels@[#[trigger] out_pos(
        g,
        flip_x,
        flip_y,
        x,
        y,
        i,
        j,
    )] == bg by {
        crate::engine::lemma_tile_pixel(g, fg, bg, flip_x, flip_y, out, x, y, i, j);
        let jj = j as u32;
        assert((0u32 >> jj) & 1 != 1) by (bit_vector);
        assert(!bit_is_set(g.chan(x, y, i), jj));
        assert(plane_pixel(g, fg, bg, x, y, i, j) == bg);
    }
}

/// Every bit below `b` of the all-ones value `2^b - 1` is set.
proof fn lemma_all_ones_bit(v: u32, b: u32, j: u32)
    requires
        j < b <= 32,
        v as nat == pow2(b as nat) - 1,
    ensures
        bit_is_set(v, j),
{
    if b == 32 {
        lemma2_to64();
        assert(v == 0xffff_ffffu32);
        assert((v >> j) & 1 == 1) by (bit_vector)
            requires
                j < 32 && v == 0xffff_ffffu32,
        ;
    } else {
        lemma_u32_pow2_no_overflow(b as nat);
        lemma_u32_shl_is_mul(1u32, b);
        assert(v + 1 == (1u32 << b));
        assert((v >> j) & 1 == 1) by (bit_vector)
            requires
                j < b < 32 && v + 1 == (1u32 << b),
        ;
    }
}

/// A channel holding the all-ones value `2^bits - 1` renders as foreground
/// in every tile position of that channel: each of its bits is set.
pub proof fn lemma_full_channel_foreground(
    g: SourceGrid,
    fg: Color,
    bg: Color,
    flip_x: bool,
    flip_y: bool,
    out: OutputGrid,
    x: int,
    y: int,
    i: int,
)
    requires
        g.wf(),
        g.width > 0,
        g.height > 0,
        g.channels > 0,
        g.bits > 0,
        is_decomposition(g, fg, bg, flip_x, flip_y, out),
        0 <= x < g.width,
        0 <= y < g.height,
        0 <= i < g.channels,
        g.chan(x, y, i) as nat == pow2(g.bits as nat) - 1,
    ensures
        forall|j: int|
            0 <= j < g.bits ==> out.pixels@[#[trigger] out_pos(g, flip_x, flip_y, x, y, i, j)]
                == fg,
{
    assert forall|j: int|
        0 <= j < g.bits implies out.pixels@[#[trigger] out_pos(g, flip_x, flip_y, x, y, i, j)]
        == fg by {
        crate::engine::lemma_tile_pixel(g, fg, bg, flip_x, flip_y, out, x, y, i, j);
        lemma_all_ones_bit(g.chan(x, y, i), g.bits as u32, j as u32);
        assert(plane_pixel(g, fg, bg, x, y, i, j) == fg);
    }
}

/// Flipping horizontally reverses the tile columns and nothing else: with
/// `flip_x` set, the tile of bit `j` stands at column `bits - 1 - j`, in the
/// same row, with the same content, and the output dimensions are unchanged.
pub proof fn lemma_flip_x_reverses_columns(
    g: SourceGrid,
    fg: Color,
    bg: Color,
    flip_y: bool,
    out_plain: OutputGrid,
    out_flipped: OutputGrid,
)
    requires
        g.wf(),
        g.width > 0,
        g.height > 0,
        g.channels > 0,
        g.bits > 0,
        is_decomposition(g, fg, bg, false, flip_y, out_plain),
        is_decomposition(g, fg, bg, true, flip_y, out_flipped),
    ensures
        out_flipped.width == out_plain.width,
        out_flipped.height == out_plain.height,
        forall|x: int, y: int, i: int, j: int|
            0 <= x < g.width && 0 <= y < g.height && 0 <= i < g.channels && 0 <= j < g.bits
                ==> out_flipped.pixels@[#[trigger] out_pos(g, true, flip_y, x, y, i, j)]
                == out_plain.pixels@[out_pos(g, false, flip_y, x, y, i, j)],
{
    assert forall|x: int, y: int, i: int, j: int|
        0 <= x < g.width && 0 <= y < g.height && 0 <= i < g.channels && 0 <= j
            < g.bits implies out_flipped.pixels@[#[trigger] out_pos(g, true, flip_y, x, y, i, j)]
        == out_plain.pixels@[out_pos(g, false, flip_y, x, y, i, j)] by {
        crate::engine::lemma_tile_pixel(g, fg, bg, true, flip_y, out_flipped, x, y, i, j);
        crate::engine::lemma_tile_pixel(g, fg, bg, false, flip_y, out_plain, x, y, i, j);
    }
}

/// The indices at which a pixel sequence shows the color `c`.
pub open spec fn color_indices(s: Seq<Color>, c: Color) -> Set<int> {
    Set::new(|k: int| 0 <= k < s.len() && s[k] == c)
}

/// How many pixels of a sequence show the color `c`.
pub open spec fn color_count(s: Seq<Color>, c: Color) -> nat {
    color_indices(s, c).len()
}

/// The output index that mirrors `k` by reversing its tile column: the
/// source coordinate and the row are kept, the column `col` becomes
/// `bits - 1 - col`.
spec fn mirror_x(w: int, b: int, ww: int, k: int) -> int {
    let ox = k % ww;
    (k / ww) * ww + ((b - 1 - ox / w) * w + ox % w)
}

/// `mirror_x` maps the pixel index range onto itself as an involution.
proof fn lemma_mirror_x_involution(w: int, b: int, ww: int, hh: int, k: int)
    requires
        w > 0,
        b > 0,
        ww == w * b,
        hh > 0,
        0 <= k < ww * hh,
    ensures
        0 <= mirror_x(w, b, ww, k) < ww * hh,
        mirror_x(w, b, ww, k) % ww == (b - 1 - (k % ww) / w) * w + (k % ww) % w,
        mirror_x(w, b, ww, k) / ww == k / ww,
        mirror_x(w, b, ww, mirror_x(w, b, ww, k)) == k,
{
    assert(ww > 0) by (nonlinear_arith)
        requires
            ww == w * b && w > 0 && b > 0,
    ;
    let ox = k % ww;
    let oy = k / ww;
    lemma_mod_bound(k, ww);
    lemma_div_pos_is_pos(k, ww);
    lemma_multiply_divide_lt(k, ww, hh);
    let x = ox % w;
    let col = ox / w;
    lemma_mod_bound(ox, w);
    lemma_div_pos_is_pos(ox, w);
    lemma_multiply_divide_lt(ox, w, b);
    let rox = (b - 1 - col) * w + x;
    assert(0 <= rox < ww) by (nonlinear_arith)
        requires
            rox == (b - 1 - col) * w + x && ww == w * b && 0 <= x < w && 0 <= b - 1 - col < b,
    ;
    lemma_fundamental_div_mod_converse(rox, w, b - 1 - col, x);
    let m = oy * ww + rox;
    assert(m == mirror_x(w, b, ww, k));
    assert(0 <= m < ww * hh) by (nonlinear_arith)
        requires
            m == oy * ww + rox && 0 <= rox < ww && 0 <= oy < hh && ww > 0,
    ;
    lemma_fundamental_div_mod_converse(m, ww, oy, rox);
    let rrox = (b - 1 - rox / w) * w + rox % w;
    assert(rrox == col * w + x);
    lemma_fundamental_div_mod(ox, w);
    assert(w * col == col * w) by (nonlinear_arith);
    assert(rrox == ox);
    lemma_fundamental_div_mod(k, ww);
    assert(ww * oy == oy * ww) by (nonlinear_arith);
    assert(mirror_x(w, b, ww, m) == oy * ww + ox == k);
}

/// Under `mirror_x`, a flipped output pixel equals the plain output pixel.
proof fn lemma_mirror_x_pixel(
    g: SourceGrid,
    fg: Color,
    bg: Color,
    flip_y: bool,
    out_plain: OutputGrid,
    out_flipped: OutputGrid,
    k: int,
)
    requires
        g.wf(),
        g.width > 0,
        g.height > 0,
        g.channels > 0,
        g.bits > 0,
        is_decomposition(g, fg, bg, false, flip_y, out_plain),
        is_decomposition(g, fg, bg, true, flip_y, out_flipped),
        0 <= k < out_flipped.pixels@.len(),
    ensures
        out_flipped.pixels@[k] == out_plain.pixels@[mirror_x(
            g.width as int,
            g.bits as int,
            out_plain.width as int,
            k,
        )],
{
    let w = g.width as int;
    let b = g.bits as int;
    let ww = out_plain.width as int;
    let hh = out_plain.height as int;
    assert(ww > 0 && hh > 0) by (nonlinear_arith)
        requires
            ww == g.width * g.bits && hh == g.height * g.channels && g.width > 0 && g.bits > 0
                && g.height > 0 && g.channels > 0,
    ;
    lemma_mirror_x_involution(w, b, ww, hh, k);
    let ox = k % ww;
    let oy = k / ww;
    lemma_mod_bound(k, ww);
    lemma_div_pos_is_pos(k, ww);
    lemma_multiply_divide_lt(k, ww, hh);
    lemma_fundamental_div_mod(k, ww);
    assert(ww * oy == oy * ww) by (nonlinear_arith);
    let m = mirror_x(w, b, ww, k);
    let rox = m % ww;
    assert(out_flipped.pixels@[oy * ww + ox] == out_pixel(g, fg, bg, true, flip_y, ox, oy));
    assert(out_plain.pixels@[oy * ww + rox] == out_pixel(g, fg, bg, false, flip_y, rox, oy));
    lemma_fundamental_div_mod(m, ww);
    assert(m == oy * ww + rox) by (nonlinear_arith)
        requires
            m == ww * (m / ww) + m % ww && m / ww == oy && rox == m % ww,
    ;
    let x = ox % w;
    let col = ox / w;
    lemma_mod_bound(ox, w);
    lemma_div_pos_is_pos(ox, w);
    lemma_multiply_divide_lt(ox, w, b);
    lemma_fundamental_div_mod_converse(rox, w, b - 1 - col, x);
    assert(rox / w == b - 1 - col && rox % w == x);
    assert(out_pixel(g, fg, bg, true, flip_y, ox, oy) == out_pixel(g, fg, bg, false, flip_y, rox, oy));
}

/// Flipping horizontally does not change how often any color occurs in the
/// output; in particular the total foreground pixel count is unchanged.
pub proof fn lemma_flip_x_preserves_color_count(
    g: SourceGrid,
    fg: Color,
    bg: Color,
    flip_y: bool,
    out_plain: OutputGrid,
    out_flipped: OutputGrid,
    c: Color,
)
    requires
        g.wf(),
        g.width > 0,
        g.height > 0,
        g.channels > 0,
        g.bits > 0,
        is_decomposition(g, fg, bg, false, flip_y, out_plain),
        is_decomposition(g, fg, bg, true, flip_y, out_flipped),
    ensures
        color_count(out_flipped.pixels@, c) == color_count(out_plain.pixels@, c),
{
    let w = g.width as int;
    let b = g.bits as int;
    let ww = out_plain.width as int;
    let hh = out_plain.height as int;
    let len = out_plain.pixels@.len() as int;
    assert(ww > 0 && hh > 0) by (nonlinear_arith)
        requires
            ww == g.width * g.bits && hh == g.height * g.channels && g.width > 0 && g.bits > 0
                && g.height > 0 && g.channels > 0,
    ;
    let sf = color_indices(out_flipped.pixels@, c);
    let sn = color_indices(out_plain.pixels@, c);
    let phi = |k: int| mirror_x(w, b, ww, k);
    lemma_int_range(0, len);
    lemma_len_subset(sf, set_int_range(0, len));
    assert forall|k: int| sf.contains(k) implies #[trigger] phi(k) == phi(k) && sn.contains(phi(k))
        && phi(phi(k)) == k by {
        lemma_mirror_x_involution(w, b, ww, hh, k);
        lemma_mirror_x_pixel(g, fg, bg, flip_y, out_plain, out_flipped, k);
    }
    assert(injective_on(phi, sf));
    assert forall|m: int| #[trigger] sn.contains(m) implies sf.contains(phi(m)) && phi(phi(m))
        == m by {
        lemma_mirror_x_involution(w, b, ww, hh, m);
        lemma_mirror_x_involution(w, b, ww, hh, phi(m));
        lemma_mirror_x_pixel(g, fg, bg, flip_y, out_plain, out_flipped, phi(m));
    }
    assert(sf.map(phi) =~= sn);
    lemma_map_size(sf, sn, phi);
}

/// Two decompositions of the same grid with the same colors and flips are
/// identical, bit for bit: the output is a pure function of the inputs.
pub proof fn lemma_decompose_deterministic(
    g: SourceGrid,
    fg: Color,
    bg: Color,
    flip_x: bool,
    flip_y: bool,
    out1: OutputGrid,
    out2: OutputGrid,
)
    requires
        is_decomposition(g, fg, bg, flip_x, flip_y, out1),
        is_decomposition(g, fg, bg, flip_x, flip_y, out2),
    ensures
        out1.width == out2.width,
        out1.height == out2.height,
        out1.pixels@ == out2.pixels@,
{
    let ww = out1.width as int;
    let hh = out1.height as int;
    assert forall|k: int| 0 <= k < out1.pixels@.len() implies out1.pixels@[k]
        == out2.pixels@[k] by {
        assert(ww * hh > 0);
        assert(ww > 0 && hh > 0) by (nonlinear_arith)
            requires
                ww * hh > 0 && ww >= 0 && hh >= 0,
        ;
        let ox = k % ww;
        let oy = k / ww;
        lemma_fundamental_div_mod(k, ww);
        lemma_mod_bound(k, ww);
        lemma_div_pos_is_pos(k, ww);
        lemma_multiply_divide_lt(k, ww, hh);
        assert(k == ww * oy + ox);
        assert(oy * ww == ww * oy) by (nonlinear_arith);
        assert(out1.pixels@[oy * ww + ox] == out_pixel(g, fg, bg, flip_x, flip_y, ox, oy));
        assert(out2.pixels@[oy * ww + ox] == out_pixel(g, fg, bg, flip_x, flip_y, ox, oy));
    }
    assert(out1.pixels@ =~= out2.pixels@);
}

} // verus!
