use autovideo::raster::compose_atlas;
use autovideo::raster::Raster;

#[test]
fn set_and_read_back_a_pixel() {
    let mut r = Raster::new_filled(8, 8, (1, 2, 3, 255));
    assert_eq!(r.width(), 8);
    assert_eq!(r.height(), 8);
    assert_eq!(r.pixel_at(5, 6), (1, 2, 3, 255));
    r.set_pixel(5, 6, (9, 8, 7, 255));
    assert_eq!(r.pixel_at(5, 6), (9, 8, 7, 255));
    assert_eq!(r.pixel_at(5, 5), (1, 2, 3, 255));
}

#[test]
fn nine_frames_fill_the_first_row_of_one_atlas() {
    let size: u32 = 64;
    let frames: Vec<Raster> = (0..9)
        .map(|i| Raster::new_filled(size, size, (i as u8 + 1, 0, 0, 255)))
        .collect();
    let atlas = compose_atlas(&frames, size);

    // One atlas of 1024 x 1024 pixels.
    assert_eq!(atlas.width(), 1024);
    assert_eq!(atlas.height(), 1024);

    // Frames 0..9 sit at cells (0,0) .. (8,0): all in the first row.
    for i in 0..9u32 {
        assert_eq!(atlas.pixel_at(i * size, 0), (i as u8 + 1, 0, 0, 255));
        assert_eq!(
            atlas.pixel_at(i * size + size - 1, size - 1),
            (i as u8 + 1, 0, 0, 255)
        );
    }

    // Cell 9 (same row) and cell 16 (second row) stay opaque black.
    assert_eq!(atlas.pixel_at(9 * size, 0), (0, 0, 0, 255));
    assert_eq!(atlas.pixel_at(0, size), (0, 0, 0, 255));
    assert_eq!(atlas.pixel_at(1023, 1023), (0, 0, 0, 255));
}

#[test]
fn seventeen_frames_wrap_to_the_second_row() {
    let size: u32 = 4;
    let frames: Vec<Raster> = (0..17)
        .map(|i| Raster::new_filled(size, size, (0, i as u8 + 1, 0, 255)))
        .collect();
    let atlas = compose_atlas(&frames, size);
    assert_eq!(atlas.width(), 64);
    // Frame 16 lands at cell (16 % 16, 16 / 16) == (0, 1).
    assert_eq!(atlas.pixel_at(0, size), (0, 17, 0, 255));
    // Frame 15 sits at the end of the first row.
    assert_eq!(atlas.pixel_at(15 * size, 0), (0, 16, 0, 255));
    // The cell right of frame 16 is unused.
    assert_eq!(atlas.pixel_at(size, size), (0, 0, 0, 255));
}

#[test]
fn compose_copies_individual_pixels() {
    let size: u32 = 4;
    let mut frame = Raster::new_filled(size, size, (10, 10, 10, 255));
    frame.set_pixel(2, 3, (200, 100, 50, 255));
    let frames = vec![frame];
    let atlas = compose_atlas(&frames, size);
    assert_eq!(atlas.pixel_at(2, 3), (200, 100, 50, 255));
    assert_eq!(atlas.pixel_at(3, 3), (10, 10, 10, 255));
}

#[test]
fn new_filled_matches_the_imaging_crates_buffer() {
    // The raster wraps a real image buffer: a filled raster agrees with
    // the imaging crate's own filled buffer, pixel by pixel.
    let r = Raster::new_filled(5, 3, (7, 11, 13, 255));
    let img = image::RgbaImage::from_pixel(5, 3, image::Rgba([7, 11, 13, 255]));
    for y in 0..3u32 {
        for x in 0..5u32 {
            let p = img.get_pixel(x, y);
            assert_eq!(r.pixel_at(x, y), (p.0[0], p.0[1], p.0[2], p.0[3]));
        }
    }
}
