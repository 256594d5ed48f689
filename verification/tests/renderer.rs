use wboit_demo::renderer::{clamp_draw_count, HistogramParams, RenderMode, TileGrid};

#[test]
fn modes_have_numbers_and_names() {
    assert_eq!(RenderMode::AlphaBlend.number(), 1);
    assert_eq!(RenderMode::NaiveWboit.number(), 2);
    assert_eq!(RenderMode::HistogramWboit.number(), 3);
    assert_eq!(RenderMode::from_number(2), Some(RenderMode::NaiveWboit));
    assert_eq!(RenderMode::from_number(0), None);
    assert_eq!(RenderMode::from_number(4), None);
    assert_eq!(RenderMode::AlphaBlend.name(), "Alpha Blend");
    assert_eq!(RenderMode::NaiveWboit.name(), "Naive WBOIT");
    assert_eq!(RenderMode::HistogramWboit.name(), "Histogram-Equalized WBOIT (tiled)");
    assert_eq!(
        RenderMode::all(),
        vec![RenderMode::AlphaBlend, RenderMode::NaiveWboit, RenderMode::HistogramWboit]
    );
}

#[test]
fn histogram_params_round_tiles_up() {
    let g = TileGrid::new(1280, 721);
    assert_eq!(
        g.params(),
        HistogramParams { tile_count_x: 160, tile_count_y: 91, num_bins: 64, tile_size: 8 }
    );
    // 160 * 91 tiles, 64 bins: four bytes per bin in the histogram, eight in the CDF.
    assert_eq!(g.tiled_bytes_with(8, 64), (3_727_360, 7_454_720));
    assert_eq!(g.footprint_bytes(), (3_727_360, 7_454_720));
}

#[test]
fn tile_cycle_skips_sizes_over_the_limit() {
    let mut g = TileGrid::new(1280, 720);
    // From 8 the next step is 4: 320 * 180 tiles * 64 bins * 4 bytes = 14_745_600.
    let r = g.cycle_tile_size(u64::MAX);
    assert_eq!(g.tile_size, 4);
    assert_eq!(r, (14_745_600, 29_491_200));
    // Past 4 the cycle wraps to 32.
    g.cycle_tile_size(u64::MAX);
    assert_eq!(g.tile_size, 32);
    // With a limit only 32-pixel tiles meet, every other size is skipped.
    let mut g = TileGrid::new(1280, 720);
    g.cycle_tile_size(40 * 23 * 64 * 4);
    assert_eq!(g.tile_size, 32);
    // When nothing fits, the size stays.
    let mut g = TileGrid::new(1280, 720);
    g.cycle_tile_size(0);
    assert_eq!(g.tile_size, 8);
}

#[test]
fn bin_cycle_wraps_and_respects_the_limit() {
    let mut g = TileGrid::new(1280, 720);
    g.cycle_bin_count(u64::MAX);
    assert_eq!(g.num_bins, 128);
    g.cycle_bin_count(u64::MAX);
    assert_eq!(g.num_bins, 256);
    g.cycle_bin_count(u64::MAX);
    assert_eq!(g.num_bins, 32);
    let mut g = TileGrid::new(1280, 720);
    // 160 * 90 tiles: only 32 bins fit under this limit.
    g.cycle_bin_count(160 * 90 * 32 * 4);
    assert_eq!(g.num_bins, 32);
}

#[test]
fn resize_treats_zero_as_one_pixel() {
    let mut g = TileGrid::new(1280, 720);
    g.resize(0, 0);
    assert_eq!((g.width, g.height), (1, 1));
    assert_eq!(g.params().tile_count_x, 1);
}

#[test]
fn draw_count_is_clamped_to_the_scene() {
    assert_eq!(clamp_draw_count(0, 10), 1);
    assert_eq!(clamp_draw_count(5, 10), 5);
    assert_eq!(clamp_draw_count(50, 10), 10);
}
