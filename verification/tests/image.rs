use palette_trap::colors::color_specs;
use palette_trap::design::{defeat_any_fit, defeat_best_fusion};
use palette_trap::render::render_design;
use palette_trap::tiles::assemble_tiles;

#[test]
fn assemble_exact_buffer() {
    let tiles: Vec<Vec<u8>> = vec![vec![1, 2], vec![3]];
    let buffer = assemble_tiles(&tiles, 2);
    assert_eq!(buffer, vec![1, 2, 1, 2, 3, 3, 3, 3]);
}

#[test]
fn assemble_wraps_palette_in_raster_order() {
    let tiles: Vec<Vec<u8>> = vec![vec![7, 8, 9]];
    let buffer = assemble_tiles(&tiles, 2);
    assert_eq!(buffer, vec![7, 8, 9, 7]);
}

#[test]
fn assemble_is_idempotent() {
    // Same proto-palettes and tile size twice: byte-identical buffers.
    let (palettes, _) = defeat_best_fusion(4);
    let first = assemble_tiles(&palettes, 5);
    let second = assemble_tiles(&palettes, 5);
    assert_eq!(first, second);
}

#[test]
fn assemble_tile_size_one() {
    // Tile size 1 gives one pixel per proto-palette: a 1-by-N image.
    let tiles: Vec<Vec<u8>> = vec![vec![5], vec![6, 1], vec![7]];
    let buffer = assemble_tiles(&tiles, 1);
    assert_eq!(buffer, vec![5, 6, 7]);
    assert_eq!(buffer.len(), tiles.len());
}

#[test]
fn assembled_pixels_stay_in_their_palette() {
    // Decode the buffer: every pixel of a tile's band must be a member of
    // that tile's proto-palette.
    for (palettes, _) in [defeat_best_fusion(4), defeat_any_fit(4)] {
        let tile_size: usize = 3;
        let buffer = assemble_tiles(&palettes, tile_size);
        let area = tile_size * tile_size;
        assert_eq!(buffer.len(), palettes.len() * area);
        for (t, pal) in palettes.iter().enumerate() {
            for o in 0..area {
                let pixel = buffer[t * area + o];
                assert!(pal.contains(&pixel));
            }
        }
    }
}

#[test]
fn color_specs_exact_choices() {
    let specs = color_specs(6);
    assert_eq!(specs.len(), 6);
    let hues: Vec<u8> = specs.iter().map(|c| c.hue_index).collect();
    let brights: Vec<bool> = specs.iter().map(|c| c.bright).collect();
    assert_eq!(hues, vec![0, 0, 1, 1, 2, 2]);
    assert_eq!(brights, vec![false, true, false, true, false, true]);
}

#[test]
fn color_specs_distinct_and_deterministic() {
    let specs = color_specs(16);
    for (i, a) in specs.iter().enumerate() {
        for b in &specs[i + 1..] {
            assert_ne!(a, b);
        }
    }
    assert_eq!(color_specs(16), specs);
}

#[test]
fn render_design_dimensions() {
    let (palettes, nb_colors) = defeat_best_fusion(4);
    let image = render_design(&palettes, nb_colors, 2);
    assert_eq!(image.width, 2);
    assert_eq!(image.height, 2 * 12);
    assert_eq!(image.pixels.len(), image.width * image.height);
    assert_eq!(image.colors.len(), 6);
}

#[test]
fn render_empty_design() {
    // A zero palette size yields a zero-tile image without any error.
    let (palettes, nb_colors) = defeat_any_fit(0);
    let image = render_design(&palettes, nb_colors, 8);
    assert_eq!(image.width, 8);
    assert_eq!(image.height, 0);
    assert!(image.pixels.is_empty());
    assert!(image.colors.is_empty());
}
