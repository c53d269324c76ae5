//! The bit-plane engine: renders each (channel, bit) pair of a source pixel
//! grid as a two-color tile on one output grid.

use crate::color::Color;
use vstd::arithmetic::div_mod::{lemma_fundamental_div_mod_converse, lemma_multiply_divide_lt};
use vstd::arithmetic::power2::{lemma2_to64, pow2};
use vstd::bits::lemma_u32_shl_is_mul;
use vstd::prelude::*;

verus! {

/// The error kinds a run of the whole transform can surface.
#[derive(Clone, Copy, Debug, PartialEq, Eq, Structural)]
pub enum Error {
    /// A foreground or background hex string failed to parse.
    InvalidColor,
    /// The source grid has zero width, height, channels or bits.
    InvalidGridDimensions,
    /// The input file could not be opened or decoded.
    DecodeFailure,
    /// The output file could not be written.
    EncodeFailure,
}

/// A decoded source image: `width * height` pixels of `channels` channels
/// each, every channel value an unsigned integer of `bits` bits, stored
/// row-major, channels interleaved.
pub struct SourceGrid {
    pub width: usize,
    pub height: usize,
    pub channels: usize,
    pub bits: usize,
    pub data: Vec<u32>,
}

/// Structural soundness of a source grid: the stored values fit the bit
/// depth, the data length matches the dimensions, and the output the grid
/// gives rise to fits the machine's address range.
pub open spec fn grid_wf_parts(w: usize, h: usize, c: usize, b: usize, d: Seq<u32>) -> bool {
    &&& b <= 32
    &&& d.len() == w * h * c
    &&& forall|k: int| 0 <= k < d.len() ==> (#[trigger] d[k] as nat) < pow2(b as nat)
    &&& w * b <= usize::MAX
    &&& h * c <= usize::MAX
    &&& (w * b) * (h * c) <= usize::MAX
}

impl SourceGrid {
    pub open spec fn wf(&self) -> bool {
        grid_wf_parts(self.width, self.height, self.channels, self.bits, self.data@)
    }

    /// The value of channel `i` of the source pixel at `(x, y)`.
    pub open spec fn chan(&self, x: int, y: int, i: int) -> u32
        recommends
            0 <= x < self.width,
            0 <= y < self.height,
            0 <= i < self.channels,
    {
        self.data@[(y * self.width + x) * self.channels + i]
    }

    /// Builds a source grid after checking that the data length matches the
    /// dimensions, every value fits the bit depth, and the output grid the
    /// dimensions call for fits the machine.
    pub fn new(width: usize, height: usize, channels: usize, bits: usize, data: Vec<u32>) -> (r:
        Option<SourceGrid>)
        ensures
            r is Some <==> grid_wf_parts(width, height, channels, bits, data@),
            r is Some ==> r->Some_0 == (SourceGrid { width, height, channels, bits, data }),
    {
        if bits > 32 {
            return None;
        }
        let n = data.len();
        let hc = match height.checked_mul(channels) {
            Some(p) => p,
            None => { return None; },
        };
        let whc = match width.checked_mul(hc) {
            Some(p) => p,
            None => {
                proof {
                    vstd::arithmetic::mul::lemma_mul_is_associative(
                        width as int,
                        height as int,
                        channels as int,
                    );
                }
                return None;
            },
        };
        if n != whc {
            proof {
                vstd::arithmetic::mul::lemma_mul_is_associative(
                    width as int,
                    height as int,
                    channels as int,
                );
            }
            return None;
        }
        let wb = match width.checked_mul(bits) {
            Some(p) => p,
            None => { return None; },
        };
        if wb.checked_mul(hc).is_none() {
            return None;
        }
        let mut k: usize = 0;
        while k < n
            invariant
                n == data@.len(),
                k <= n,
                bits <= 32,
                forall|m: int| 0 <= m < k ==> (#[trigger] data@[m] as nat) < pow2(bits as nat),
            decreases n - k,
        {
            if bits < 32 {
                let v = data[k];
                if (v >> (bits as u32)) != 0 {
                    proof {
                        lemma_shr_zero_iff(v, bits as u32);
                    }
                    return None;
                }
                proof {
                    lemma_shr_zero_iff(v, bits as u32);
                }
            } else {
                proof {
                    lemma2_to64();
                }
            }
            k = k + 1;
        }
        proof {
            vstd::arithmetic::mul::lemma_mul_is_associative(
                width as int,
                height as int,
                channels as int,
            );
        }
        Some(SourceGrid { width, height, channels, bits, data })
    }
}

/// The output image: `width * height` colors, stored row-major. Every cell
/// holds the foreground or the background color.
pub struct OutputGrid {
    pub width: usize,
    pub height: usize,
    pub pixels: Vec<Color>,
}

impl OutputGrid {
    pub open spec fn wf(&self) -> bool {
        self.pixels@.len() == self.width * self.height
    }

    /// The color of the output pixel at `(x, y)`.
    pub fn pixel_at(&self, x: usize, y: usize) -> (c: Color)
        requires
            self.wf(),
            x < self.width,
            y < self.height,
        ensures
            c == self.pixels@[y * self.width + x],
    {
        let n = self.pixels.len();
        proof {
            assert(y * self.width + x < self.width * self.height) by (nonlinear_arith)
                requires
                    x < self.width,
                    y < self.height,
            ;
            assert(y * self.width + x < n);
        }
        self.pixels[y * self.width + x]
    }
}

/// Whether bit `j` of `v` is set.
pub open spec fn bit_is_set(v: u32, j: u32) -> bool
    recommends
        j < 32,
{
    (v >> j) & 1 == 1
}

/// The horizontal tile index of bit `j`: bit 0 leftmost, or bit order
/// reversed under `flip_x`.
pub open spec fn tile_col(j: int, bits: int, flip_x: bool) -> int {
    if flip_x {
        bits - 1 - j
    } else {
        j
    }
}

/// The vertical tile index of channel `i`: channel 0 on top, or channel
/// order reversed under `flip_y`.
pub open spec fn tile_row(i: int, channels: int, flip_y: bool) -> int {
    if flip_y {
        channels - 1 - i
    } else {
        i
    }
}

/// The color the tile of channel `i`, bit `j` shows at source coordinate
/// `(x, y)`: foreground where the bit is set, background where it is clear.
pub open spec fn plane_pixel(g: SourceGrid, fg: Color, bg: Color, x: int, y: int, i: int, j: int)
    -> Color
    recommends
        0 <= x < g.width,
        0 <= y < g.height,
        0 <= i < g.channels,
        0 <= j < g.bits <= 32,
{
    if bit_is_set(g.chan(x, y, i), j as u32) {
        fg
    } else {
        bg
    }
}

/// The row-major index in the output grid where the tile of channel `i`,
/// bit `j` renders source coordinate `(x, y)`.
pub open spec fn out_pos(g: SourceGrid, flip_x: bool, flip_y: bool, x: int, y: int, i: int, j: int)
    -> int
    recommends
        0 <= x < g.width,
        0 <= y < g.height,
        0 <= i < g.channels,
        0 <= j < g.bits,
{
    (y + tile_row(i, g.channels as int, flip_y) * g.height) * (g.width * g.bits) + (x + tile_col(
        j,
        g.bits as int,
        flip_x,
    ) * g.width)
}

/// The color of the output pixel at absolute coordinate `(ox, oy)`: the
/// coordinate is split into a source coordinate and a tile index, the tile
/// index names a channel and a bit, and that bit picks the color.
pub open spec fn out_pixel(
    g: SourceGrid,
    fg: Color,
    bg: Color,
    flip_x: bool,
    flip_y: bool,
    ox: int,
    oy: int,
) -> Color
    recommends
        g.width > 0,
        g.height > 0,
        g.channels > 0,
        0 < g.bits <= 32,
        0 <= ox < g.width * g.bits,
        0 <= oy < g.height * g.channels,
{
    let x = ox % (g.width as int);
    let col = ox / (g.width as int);
    let y = oy % (g.height as int);
    let row = oy / (g.height as int);
    let j = if flip_x {
        g.bits - 1 - col
    } else {
        col
    };
    let i = if flip_y {
        g.channels - 1 - row
    } else {
        row
    };
    plane_pixel(g, fg, bg, x, y, i, j)
}

/// What `decompose` guarantees of its output: the dimensions are the source
/// dimensions scaled by bit depth and channel count, and every output pixel
/// is the one `out_pixel` assigns to its coordinate.
pub open spec fn is_decomposition(
    g: SourceGrid,
    fg: Color,
    bg: Color,
    flip_x: bool,
    flip_y: bool,
    out: OutputGrid,
) -> bool {
    &&& out.width == g.width * g.bits
    &&& out.height == g.height * g.channels
    &&& out.pixels@.len() == out.width * out.height
    &&& forall|ox: int, oy: int|
        0 <= ox < out.width && 0 <= oy < out.height ==> out.pixels@[oy * out.width + ox]
            == #[trigger] out_pixel(g, fg, bg, flip_x, flip_y, ox, oy)
}

/// Renders every bit plane of every channel of `g` as a `width x height`
/// tile: bit `j` of channel `i` goes to tile column `j` (column `bits-1-j`
/// under `flip_x`) and tile row `i` (row `channels-1-i` under `flip_y`),
/// foreground where the bit is set, background where it is clear.
///
/// Rejects a grid with zero width, height, channels or bits; any other
/// well-formed grid decomposes.
pub fn decompose(g: &SourceGrid, fg: Color, bg: Color, flip_x: bool, flip_y: bool) -> (r: Result<
    OutputGrid,
    Error,
>)
    requires
        g.wf(),
    ensures
        r is Ok <==> (g.width > 0 && g.height > 0 && g.channels > 0 && g.bits > 0),
        r is Err ==> r == Err::<OutputGrid, Error>(Error::InvalidGridDimensions),
        r is Ok ==> is_decomposition(*g, fg, bg, flip_x, flip_y, r->Ok_0),
        r is Ok ==> forall|x: int, y: int, i: int, j: int|
            0 <= x < g.width && 0 <= y < g.height && 0 <= i < g.channels && 0 <= j < g.bits
                ==> r->Ok_0.pixels@[out_pos(*g, flip_x, flip_y, x, y, i, j)] == #[trigger] plane_pixel(
                *g,
                fg,
                bg,
                x,
                y,
                i,
                j,
            ),
{
    if g.width == 0 || g.height == 0 || g.channels == 0 || g.bits == 0 {
        return Err(Error::InvalidGridDimensions);
    }
    let w = g.width;
    let h = g.height;
    let c = g.channels;
    let b = g.bits;
    let out_w = w * b;
    let out_h = h * c;
    proof {
        assert(out_w > 0 && out_h > 0) by (nonlinear_arith)
            requires
                out_w == w * b && out_h == h * c && w > 0 && h > 0 && c > 0 && b > 0,
        ;
    }
    let data_len = g.data.len();
    proof {
        assert(data_len == w * h * c);
        assert(w * h * c <= usize::MAX);
    }
    let mut pixels: Vec<Color> = Vec::new();
    let mut oy: usize = 0;
    while oy < out_h
        invariant
            g.wf(),
            w == g.width && h == g.height && c == g.channels && b == g.bits,
            w > 0 && h > 0 && c > 0 && b > 0,
            out_w == w * b && out_h == h * c,
            out_w > 0 && out_h > 0,
            out_w * out_h <= usize::MAX,
            w * h * c <= usize::MAX,
            oy <= out_h,
            pixels@.len() == oy * out_w,
            forall|k: int|
                0 <= k < pixels@.len() ==> pixels@[k] == #[trigger] out_pixel(
                    *g,
                    fg,
                    bg,
                    flip_x,
                    flip_y,
                    k % (out_w as int),
                    k / (out_w as int),
                ),
        decreases out_h - oy,
    {
        let mut ox: usize = 0;
        proof {
            assert(oy * out_w + out_w <= out_h * out_w) by (nonlinear_arith)
                requires
                    oy < out_h && out_w > 0,
            ;
            assert(out_h * out_w == out_w * out_h) by (nonlinear_arith);
        }
        while ox < out_w
            invariant
                g.wf(),
                w == g.width && h == g.height && c == g.channels && b == g.bits,
                w > 0 && h > 0 && c > 0 && b > 0,
                out_w == w * b && out_h == h * c,
                out_w > 0 && out_h > 0,
                out_w * out_h <= usize::MAX,
                w * h * c <= usize::MAX,
                oy < out_h,
                ox <= out_w,
                oy * out_w + out_w <= out_w * out_h,
                pixels@.len() == oy * out_w + ox,
                forall|k: int|
                    0 <= k < pixels@.len() ==> pixels@[k] == #[trigger] out_pixel(
                        *g,
                        fg,
                        bg,
                        flip_x,
                        flip_y,
                        k % (out_w as int),
                        k / (out_w as int),
                    ),
            decreases out_w - ox,
        {
            let x = ox % w;
            let col = ox / w;
            let y = oy % h;
            let row = oy / h;
            proof {
                lemma_multiply_divide_lt(ox as int, w as int, b as int);
                lemma_multiply_divide_lt(oy as int, h as int, c as int);
            }
            let j = if flip_x {
                b - 1 - col
            } else {
                col
            };
            let i = if flip_y {
                c - 1 - row
            } else {
                row
            };
            proof {
                assert((y * w + x) * c + i < w * h * c && y * w + x < w * h && w * h <= w * h
                    * c) by (nonlinear_arith)
                    requires
                        0 <= x < w && 0 <= y < h && 0 <= i < c && 1 <= c,
                ;
            }
            let v = g.data[(y * w + x) * c + i];
            let set = (v >> (j as u32)) & 1 != 0;
            proof {
                let jj = j as u32;
                assert((v >> jj) & 1 == 0 || (v >> jj) & 1 == 1) by (bit_vector);
                lemma_fundamental_div_mod_converse(
                    (oy * out_w + ox) as int,
                    out_w as int,
                    oy as int,
                    ox as int,
                );
            }
            pixels.push(if set { fg } else { bg });
            ox = ox + 1;
        }
        proof {
            assert((oy + 1) * out_w == oy * out_w + out_w) by (nonlinear_arith);
        }
        oy = oy + 1;
    }
    let out = OutputGrid { width: out_w, height: out_h, pixels };
    proof {
        assert(out_w * out_h == out_h * out_w) by (nonlinear_arith);
        assert forall|ox: int, oy2: int|
            0 <= ox < out.width && 0 <= oy2 < out.height implies out.pixels@[oy2 * out.width + ox]
            == #[trigger] out_pixel(*g, fg, bg, flip_x, flip_y, ox, oy2) by {
            assert(oy2 * out_w + ox < out_w * out_h) by (nonlinear_arith)
                requires
                    0 <= ox < out_w && 0 <= oy2 < out_h,
            ;
            lemma_fundamental_div_mod_converse(
                oy2 * (out_w as int) + ox,
                out_w as int,
                oy2,
                ox,
            );
        }
        assert forall|x: int, y: int, i: int, j: int|
            0 <= x < g.width && 0 <= y < g.height && 0 <= i < g.channels && 0 <= j
                < g.bits implies out.pixels@[out_pos(*g, flip_x, flip_y, x, y, i, j)]
            == #[trigger] plane_pixel(*g, fg, bg, x, y, i, j) by {
            lemma_tile_pixel(*g, fg, bg, flip_x, flip_y, out, x, y, i, j);
        }
    }
    Ok(out)
}

/// The tile of channel `i`, bit `j` renders source coordinate `(x, y)` at
/// output index `out_pos`, and shows there exactly `plane_pixel`.
pub proof fn lemma_tile_pixel(
    g: SourceGrid,
    fg: Color,
    bg: Color,
    flip_x: bool,
    flip_y: bool,
    out: OutputGrid,
    x: int,
    y: int,
    i: int,
    j: int,
)
    requires
        g.wf(),
        g.width > 0,
        g.height > 0,
        g.channels > 0,
        g.bits > 0,
        is_decomposition(g, fg, bg, flip_x, flip_y, out),
        0 <= x < g.width,
        0 <= y < g.height,
        0 <= i < g.channels,
        0 <= j < g.bits,
    ensures
        0 <= out_pos(g, flip_x, flip_y, x, y, i, j) < out.pixels@.len(),
        out.pixels@[out_pos(g, flip_x, flip_y, x, y, i, j)] == plane_pixel(g, fg, bg, x, y, i, j),
{
    let w = g.width as int;
    let h = g.height as int;
    let c = g.channels as int;
    let b = g.bits as int;
    let col = tile_col(j, b, flip_x);
    let row = tile_row(i, c, flip_y);
    let ox = x + col * w;
    let oy = y + row * h;
    assert(0 <= col < b && 0 <= row < c);
    assert(0 <= ox < w * b && 0 <= oy < h * c) by (nonlinear_arith)
        requires
            0 <= x < w && 0 <= y < h && 0 <= col < b && 0 <= row < c && ox == x + col * w && oy == y
                + row * h,
    ;
    lemma_fundamental_div_mod_converse(ox, w, col, x);
    lemma_fundamental_div_mod_converse(oy, h, row, y);
    assert(out_pos(g, flip_x, flip_y, x, y, i, j) == oy * (w * b) + ox) by (nonlinear_arith)
        requires
            out_pos(g, flip_x, flip_y, x, y, i, j) == (y + row * h) * (w * b) + (x + col * w) && ox
                == x + col * w && oy == y + row * h,
    ;
    assert(oy * (w * b) + ox < (w * b) * (h * c)) by (nonlinear_arith)
        requires
            0 <= ox < w * b && 0 <= oy < h * c,
    ;
    assert(out.pixels@[oy * out.width + ox] == out_pixel(g, fg, bg, flip_x, flip_y, ox, oy));
}

/// A `u32` is zero above its low `b` bits exactly when it is below `2^b`.
proof fn lemma_shr_zero_iff(v: u32, b: u32)
    requires
        b < 32,
    ensures
        (v >> b) == 0 <==> (v as nat) < pow2(b as nat),
{
    vstd::bits::lemma_u32_pow2_no_overflow(b as nat);
    lemma_u32_shl_is_mul(1u32, b);
    assert((v >> b) == 0 <==> v < (1u32 << b)) by (bit_vector)
        requires
            b < 32,
    ;
}

} // verus!
