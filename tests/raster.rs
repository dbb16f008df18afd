use rme_raster::raster::render_minimap_buffer;

#[test]
fn minimap_buffer_basic() {
    // 2x2 tile grid, tile_size=1
    let colors = vec![
        (255, 0, 0, 255),
        (0, 255, 0, 255),
        (0, 0, 255, 255),
        (255, 255, 0, 255),
    ];
    let buf = render_minimap_buffer(colors, 2, 2, 1, 0, 0, 0);
    assert_eq!(buf.len(), 2 * 2 * 3);
    assert_eq!(&buf[0..3], &[255, 0, 0]);
    assert_eq!(&buf[3..6], &[0, 255, 0]);
    assert_eq!(&buf[6..9], &[0, 0, 255]);
    assert_eq!(&buf[9..12], &[255, 255, 0]);
}

#[test]
fn minimap_transparent_uses_background() {
    let colors = vec![(0, 0, 0, 0)];
    let buf = render_minimap_buffer(colors, 1, 1, 1, 128, 64, 32);
    assert_eq!(&buf[0..3], &[128, 64, 32]);
}

#[test]
fn minimap_whole_output_of_two_by_two_grid() {
    let colors = vec![
        (255, 0, 0, 255),
        (0, 255, 0, 255),
        (0, 0, 255, 255),
        (255, 255, 0, 255),
    ];
    let buf = render_minimap_buffer(colors, 2, 2, 1, 0, 0, 0);
    assert_eq!(buf, vec![255, 0, 0, 0, 255, 0, 0, 0, 255, 255, 255, 0]);
}

#[test]
fn minimap_length_matches_geometry() {
    for &(tx, ty, ts) in &[(1u32, 1u32, 1u32), (3, 2, 4), (5, 1, 3), (2, 7, 2)] {
        let colors = vec![(1, 2, 3, 4); (tx * ty) as usize];
        let buf = render_minimap_buffer(colors, tx, ty, ts, 9, 9, 9);
        assert_eq!(buf.len(), (tx * ts * ty * ts * 3) as usize);
    }
}

#[test]
fn minimap_transparent_tile_ignores_its_rgb() {
    let colors = vec![(255, 255, 255, 0), (10, 20, 30, 0)];
    let buf = render_minimap_buffer(colors, 2, 1, 2, 7, 8, 9);
    assert_eq!(buf.len(), 4 * 2 * 3);
    for px in buf.chunks(3) {
        assert_eq!(px, &[7, 8, 9]);
    }
}

#[test]
fn minimap_opaque_tile_fills_its_block_only() {
    // 2x2 grid of 2-pixel tiles: only the bottom-left tile is opaque.
    let colors = vec![(0, 0, 0, 0), (0, 0, 0, 0), (200, 100, 50, 1), (0, 0, 0, 0)];
    let buf = render_minimap_buffer(colors, 2, 2, 2, 1, 2, 3);
    let width = 4;
    for py in 0..4usize {
        for px in 0..4usize {
            let off = (py * width + px) * 3;
            let expected: [u8; 3] = if py >= 2 && px < 2 { [200, 100, 50] } else { [1, 2, 3] };
            assert_eq!(&buf[off..off + 3], &expected, "pixel ({}, {})", px, py);
        }
    }
}

#[test]
fn minimap_short_tile_list_leaves_background() {
    let colors = vec![(5, 6, 7, 255)];
    let buf = render_minimap_buffer(colors, 2, 1, 1, 0, 0, 0);
    assert_eq!(buf, vec![5, 6, 7, 0, 0, 0]);
}

#[test]
fn minimap_extra_tiles_are_ignored() {
    let colors = vec![(5, 6, 7, 255), (8, 9, 10, 255), (11, 12, 13, 255)];
    let buf = render_minimap_buffer(colors, 1, 2, 1, 0, 0, 0);
    assert_eq!(buf, vec![5, 6, 7, 8, 9, 10]);
}

#[test]
fn minimap_degenerate_geometry_is_empty() {
    assert!(render_minimap_buffer(vec![(1, 1, 1, 1)], 0, 3, 2, 0, 0, 0).is_empty());
    assert!(render_minimap_buffer(vec![(1, 1, 1, 1)], 3, 0, 2, 0, 0, 0).is_empty());
    assert!(render_minimap_buffer(vec![(1, 1, 1, 1)], 3, 3, 0, 0, 0, 0).is_empty());
}
