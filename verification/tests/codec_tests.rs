use megatexture::{
    check_texture, read_texture_rgb, rgba_to_rgb, write_texture_rgb, RgbImage, TILE_EDGE,
};

fn rgb_bytes(width: u32, height: u32, seed: u8) -> Vec<u8> {
    let len = (width * height * 3) as usize;
    (0..len).map(|i| (seed as usize).wrapping_add(i.wrapping_mul(13)) as u8).collect()
}

fn png_rgba(width: u32, height: u32, data: &[u8]) -> Vec<u8> {
    let mut out = Vec::new();
    {
        let mut encoder = png::Encoder::new(&mut out, width, height);
        encoder.set_color(png::ColorType::RGBA);
        encoder.set_depth(png::BitDepth::Eight);
        let mut writer = encoder.write_header().unwrap();
        writer.write_image_data(data).unwrap();
    }
    out
}

#[test]
fn rgba_to_rgb_drops_exactly_the_fourth_byte() {
    let rgba = vec![0u8, 1, 2, 3, 4, 5, 6, 7];
    assert_eq!(rgba_to_rgb(rgba), vec![0u8, 1, 2, 4, 5, 6]);
}

#[test]
fn rgba_to_rgb_discards_trailing_partial_group() {
    let rgba = vec![9u8, 8, 7, 6, 5];
    assert_eq!(rgba_to_rgb(rgba), vec![9u8, 8, 7]);
}

#[test]
fn rgb_encode_decode_round_trip() {
    let data = rgb_bytes(TILE_EDGE, TILE_EDGE, 5);
    let img = RgbImage::from_raw(TILE_EDGE, data.clone());
    let file = write_texture_rgb(&img).unwrap();
    let back = read_texture_rgb(&file).unwrap();
    assert_eq!(back.dimensions(), (TILE_EDGE, TILE_EDGE));
    assert_eq!(back.data(), &data);
}

#[test]
fn decoding_rgba_drops_alpha_in_order() {
    // An RGBA tile decodes to RGB with the 4th byte of every 4-byte pixel
    // group dropped and the other three kept in order.
    let len = (TILE_EDGE * TILE_EDGE * 4) as usize;
    let rgba: Vec<u8> = (0..len).map(|i| (i % 251) as u8).collect();
    let file = png_rgba(TILE_EDGE, TILE_EDGE, &rgba);
    let img = read_texture_rgb(&file).unwrap();
    assert_eq!(img.dimensions(), (TILE_EDGE, TILE_EDGE));
    assert_eq!(img.data().as_slice(), rgba_to_rgb(rgba).as_slice());
}

#[test]
fn probe_accepts_exact_tiles() {
    let rgb = write_texture_rgb(&RgbImage::from_raw(TILE_EDGE, rgb_bytes(TILE_EDGE, TILE_EDGE, 1)))
        .unwrap();
    assert_eq!(check_texture(&rgb), Ok(true));
    let rgba_len = (TILE_EDGE * TILE_EDGE * 4) as usize;
    let rgba = png_rgba(TILE_EDGE, TILE_EDGE, &vec![7u8; rgba_len]);
    assert_eq!(check_texture(&rgba), Ok(true));
}

#[test]
fn probe_returns_false_not_error_for_wrong_dimensions() {
    // A well-formed image whose dimensions differ from the tile edge probes
    // as false, not as an error.
    let img = RgbImage::from_raw(8, rgb_bytes(8, 8, 2));
    let file = write_texture_rgb(&img).unwrap();
    assert_eq!(check_texture(&file), Ok(false));
    let tall = RgbImage::from_raw(TILE_EDGE, rgb_bytes(TILE_EDGE, 2 * TILE_EDGE, 2));
    let file = write_texture_rgb(&tall).unwrap();
    assert_eq!(check_texture(&file), Ok(false));
}

#[test]
fn probe_errors_on_undecodable_bytes() {
    let garbage = vec![1u8, 2, 3, 4, 5, 6, 7, 8];
    assert!(check_texture(&garbage).is_err());
    assert!(read_texture_rgb(&garbage).is_err());
}

#[test]
fn encoding_is_deterministic() {
    let img = RgbImage::from_raw(TILE_EDGE, rgb_bytes(TILE_EDGE, TILE_EDGE, 42));
    let a = write_texture_rgb(&img).unwrap();
    let b = write_texture_rgb(&img).unwrap();
    assert_eq!(a, b);
}
