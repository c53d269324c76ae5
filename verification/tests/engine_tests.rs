use bit_planes::color::Color;
use bit_planes::engine::{decompose, Error, OutputGrid, SourceGrid};

fn white() -> Color {
    Color::new(255, 255, 255, 255)
}

fn black() -> Color {
    Color::new(0, 0, 0, 255)
}

fn grid(w: usize, h: usize, c: usize, b: usize, data: Vec<u32>) -> SourceGrid {
    SourceGrid::new(w, h, c, b, data).expect("valid grid")
}

fn at(out: &OutputGrid, x: usize, y: usize) -> Color {
    out.pixel_at(x, y)
}

#[test]
fn test_grid_validation() {
    // Data length must match the dimensions.
    assert!(SourceGrid::new(2, 2, 1, 8, vec![0; 3]).is_none());
    assert!(SourceGrid::new(2, 2, 1, 8, vec![0; 4]).is_some());
    // Every value must fit the bit depth.
    assert!(SourceGrid::new(1, 1, 1, 4, vec![16]).is_none());
    assert!(SourceGrid::new(1, 1, 1, 4, vec![15]).is_some());
    // More than 32 bits per channel is refused.
    assert!(SourceGrid::new(1, 1, 1, 33, vec![0]).is_none());
    assert!(SourceGrid::new(1, 1, 1, 32, vec![u32::MAX]).is_some());
}

#[test]
fn test_zero_dimensions_rejected() {
    let g = grid(0, 1, 1, 8, vec![]);
    assert_eq!(
        decompose(&g, white(), black(), false, false).err(),
        Some(Error::InvalidGridDimensions)
    );
    let g = grid(1, 0, 1, 8, vec![]);
    assert!(decompose(&g, white(), black(), false, false).is_err());
    let g = grid(1, 1, 0, 8, vec![]);
    assert!(decompose(&g, white(), black(), false, false).is_err());
    let g = grid(1, 1, 1, 0, vec![0]);
    assert!(decompose(&g, white(), black(), false, false).is_err());
}

#[test]
fn test_output_dimensions() {
    // Output is (width * bits) x (height * channels).
    let g = grid(2, 3, 3, 8, vec![0; 18]);
    let out = decompose(&g, white(), black(), false, false).unwrap();
    assert_eq!(out.width, 16);
    assert_eq!(out.height, 9);
    assert_eq!(out.pixels.len(), 144);

    let g = grid(5, 4, 1, 16, vec![0; 20]);
    let out = decompose(&g, white(), black(), true, true).unwrap();
    assert_eq!(out.width, 80);
    assert_eq!(out.height, 4);
}

#[test]
fn test_bit_plane_layout() {
    // One 8-bit pixel of value 0b1011_0000: bits 4, 5 and 7 are set, so
    // tile columns 4, 5 and 7 show foreground, the rest background.
    let g = grid(1, 1, 1, 8, vec![0b1011_0000]);
    let out = decompose(&g, white(), black(), false, false).unwrap();
    assert_eq!(out.width, 8);
    assert_eq!(out.height, 1);
    for x in 0..8 {
        let expected = if x == 4 || x == 5 || x == 7 { white() } else { black() };
        assert_eq!(at(&out, x, 0), expected, "column {}", x);
    }
}

#[test]
fn test_zero_pixel_renders_background() {
    // Every channel zero: every tile shows background everywhere.
    let g = grid(1, 1, 3, 8, vec![0, 0, 0]);
    let out = decompose(&g, white(), black(), false, false).unwrap();
    for x in 0..out.width {
        for y in 0..out.height {
            assert_eq!(at(&out, x, y), black());
        }
    }
}

#[test]
fn test_full_channel_renders_foreground() {
    // A channel with all bits set: its whole tile row shows foreground.
    let g = grid(1, 1, 2, 8, vec![255, 0]);
    let out = decompose(&g, white(), black(), false, false).unwrap();
    for x in 0..8 {
        assert_eq!(at(&out, x, 0), white());
        assert_eq!(at(&out, x, 1), black());
    }
    // The same at 16 bits per channel.
    let g = grid(1, 1, 1, 16, vec![0xffff]);
    let out = decompose(&g, white(), black(), false, false).unwrap();
    for x in 0..16 {
        assert_eq!(at(&out, x, 0), white());
    }
}

#[test]
fn test_flip_x_reverses_tile_columns() {
    // 2x1 source, 2 bits: values 1 (bit 0) and 2 (bit 1).
    let g = grid(2, 1, 1, 2, vec![1, 2]);
    let plain = decompose(&g, white(), black(), false, false).unwrap();
    let flipped = decompose(&g, white(), black(), true, false).unwrap();
    assert_eq!(plain.width, flipped.width);
    assert_eq!(plain.height, flipped.height);
    // Plain: column 0 = bit 0, column 1 = bit 1.
    let expect_plain = [white(), black(), black(), white()];
    let expect_flipped = [black(), white(), white(), black()];
    for x in 0..4 {
        assert_eq!(at(&plain, x, 0), expect_plain[x]);
        assert_eq!(at(&flipped, x, 0), expect_flipped[x]);
    }
    // Tile columns are exactly reversed (tile width 2, 2 columns).
    for x in 0..2 {
        assert_eq!(at(&flipped, x, 0), at(&plain, x + 2, 0));
        assert_eq!(at(&flipped, x + 2, 0), at(&plain, x, 0));
    }
    // The foreground pixel count is unchanged.
    let count = |o: &OutputGrid| o.pixels.iter().filter(|p| **p == white()).count();
    assert_eq!(count(&plain), count(&flipped));
}

#[test]
fn test_flip_y_reverses_tile_rows() {
    // One pixel, two channels: channel 0 all ones, channel 1 zero.
    let g = grid(1, 1, 2, 4, vec![15, 0]);
    let plain = decompose(&g, white(), black(), false, false).unwrap();
    let flipped = decompose(&g, white(), black(), false, true).unwrap();
    for x in 0..4 {
        assert_eq!(at(&plain, x, 0), white());
        assert_eq!(at(&plain, x, 1), black());
        assert_eq!(at(&flipped, x, 0), black());
        assert_eq!(at(&flipped, x, 1), white());
    }
}

#[test]
fn test_decompose_deterministic() {
    let data = vec![3, 9, 12, 5, 0, 15, 7, 8];
    let g = grid(2, 2, 2, 4, data);
    let first = decompose(&g, white(), black(), true, true).unwrap();
    let second = decompose(&g, white(), black(), true, true).unwrap();
    assert_eq!(first.width, second.width);
    assert_eq!(first.height, second.height);
    assert_eq!(first.pixels, second.pixels);
}

#[test]
fn test_multi_pixel_layout() {
    // 2x1 source, 1 channel, 2 bits: the tile of bit j renders source
    // pixel (x, y) at output (x + j * width, y).
    let g = grid(2, 1, 1, 2, vec![0b01, 0b10]);
    let out = decompose(&g, white(), black(), false, false).unwrap();
    // Bit 0 tile (columns 0..2): pixel 0 set, pixel 1 clear.
    assert_eq!(at(&out, 0, 0), white());
    assert_eq!(at(&out, 1, 0), black());
    // Bit 1 tile (columns 2..4): pixel 0 clear, pixel 1 set.
    assert_eq!(at(&out, 2, 0), black());
    assert_eq!(at(&out, 3, 0), white());
}
