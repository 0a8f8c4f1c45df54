use megatexture::RgbImage;

fn patterned_tile(width: u32, height: u32, seed: u8) -> RgbImage {
    let len = (width * height * 3) as usize;
    let mut data = Vec::with_capacity(len);
    for i in 0..len {
        data.push((seed as usize).wrapping_add(i.wrapping_mul(7)) as u8);
    }
    RgbImage::from_raw(width, data)
}

#[test]
fn new_is_zero_filled_with_given_dimensions() {
    let img = RgbImage::new(5, 3);
    assert_eq!(img.dimensions(), (5, 3));
    assert_eq!(img.data().len(), 5 * 3 * 3);
    assert!(img.data().iter().all(|&b| b == 0));
}

#[test]
fn row_stride_is_width_times_channels() {
    let img = RgbImage::new(7, 2);
    assert_eq!(img.row_stride(), 21);
}

#[test]
fn height_is_derived_from_buffer_length() {
    let img = patterned_tile(4, 6, 1);
    assert_eq!(img.dimensions(), (4, 6));
}

#[test]
fn blit_reads_back_source_bytes() {
    // The sub-region at the blit target holds exactly the source tile's
    // bytes, unchanged, and everything else stays zero.
    let mut canvas = RgbImage::new(8, 8);
    let tile = patterned_tile(2, 2, 3);
    canvas.blit(3, 5, &tile);
    let canvas_stride = 8 * 3;
    let tile_stride = 2 * 3;
    for row in 0..2usize {
        for col in 0..tile_stride {
            let ci = (5 + row) * canvas_stride + 3 * 3 + col;
            assert_eq!(canvas.data()[ci], tile.data()[row * tile_stride + col]);
        }
    }
    // A byte left of the region and one above it are untouched.
    assert_eq!(canvas.data()[5 * canvas_stride], 0);
    assert_eq!(canvas.data()[4 * canvas_stride + 3 * 3], 0);
}

#[test]
fn blit_overwrites_without_blending() {
    let mut canvas = RgbImage::new(4, 4);
    let first = patterned_tile(2, 2, 9);
    let second = patterned_tile(2, 2, 100);
    canvas.blit(0, 0, &first);
    canvas.blit(0, 0, &second);
    let canvas_stride = 4 * 3;
    let tile_stride = 2 * 3;
    for row in 0..2usize {
        for col in 0..tile_stride {
            assert_eq!(
                canvas.data()[row * canvas_stride + col],
                second.data()[row * tile_stride + col]
            );
        }
    }
}
