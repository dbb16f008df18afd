use miniz_oxide::inflate::decompress_to_vec_zlib;
use rme_raster::scanline::{assemble_png_idat, frame_scanlines, COMPRESSION_LEVEL, FILTER_NONE};

#[test]
fn png_idat_basic() {
    // 2x1 image, RGB
    let data: Vec<u8> = vec![255, 0, 0, 0, 255, 0];
    let compressed = assemble_png_idat(&data, 2, 1);
    let decompressed = decompress_to_vec_zlib(&compressed).unwrap();
    assert_eq!(decompressed, vec![0, 255, 0, 0, 0, 255, 0]);
}

#[test]
fn idat_is_compressed_not_raw() {
    let data: Vec<u8> = vec![255, 0, 0, 0, 255, 0];
    let compressed = assemble_png_idat(&data, 2, 1);
    assert_ne!(compressed, frame_scanlines(&data, 2, 1));
    assert_eq!(compressed[0], 0x78);
}

#[test]
fn idat_round_trip_rows_with_padding() {
    // 2x3 image with only 8 of the 18 pixel bytes present.
    let data: Vec<u8> = (1..=8).collect();
    let compressed = assemble_png_idat(&data, 2, 3);
    let raw = decompress_to_vec_zlib(&compressed).unwrap();
    assert_eq!(raw.len(), 3 * (1 + 2 * 3));
    assert_eq!(
        raw,
        vec![0, 1, 2, 3, 4, 5, 6, 0, 7, 8, 0, 0, 0, 0, 0, 0, 0, 0, 0, 0, 0]
    );
    for row in raw.chunks(7) {
        assert_eq!(row[0], FILTER_NONE);
    }
}

#[test]
fn idat_round_trip_full_image() {
    let data: Vec<u8> = (0..60u32).map(|v| (v * 7 % 256) as u8).collect();
    let compressed = assemble_png_idat(&data, 4, 5);
    let raw = decompress_to_vec_zlib(&compressed).unwrap();
    assert_eq!(raw.len(), 5 * 13);
    for y in 0..5 {
        assert_eq!(raw[y * 13], 0);
        assert_eq!(&raw[y * 13 + 1..y * 13 + 13], &data[y * 12..y * 12 + 12]);
    }
}

#[test]
fn idat_of_empty_image_decompresses() {
    let zero_height = assemble_png_idat(&[], 5, 0);
    assert_eq!(decompress_to_vec_zlib(&zero_height).unwrap(), Vec::<u8>::new());
    let zero_width = assemble_png_idat(&[], 0, 3);
    assert_eq!(decompress_to_vec_zlib(&zero_width).unwrap(), vec![0, 0, 0]);
    let empty = assemble_png_idat(&[], 0, 0);
    assert!(decompress_to_vec_zlib(&empty).unwrap().is_empty());
}

#[test]
fn frame_scanlines_layout() {
    assert_eq!(frame_scanlines(&[9, 8, 7], 1, 2), vec![0, 9, 8, 7, 0, 0, 0, 0]);
    assert_eq!(frame_scanlines(&[1, 2, 3, 4], 1, 1), vec![0, 1, 2, 3]);
    assert!(frame_scanlines(&[1, 2, 3], 1, 0).is_empty());
}

#[test]
fn idat_matches_level_six_zlib() {
    let data: Vec<u8> = vec![3; 30];
    let expected = miniz_oxide::deflate::compress_to_vec_zlib(&frame_scanlines(&data, 5, 2), 6);
    assert_eq!(COMPRESSION_LEVEL, 6);
    assert_eq!(assemble_png_idat(&data, 5, 2), expected);
}
