use comparer::image::{
    check_band, check_dimensions, check_len, decode, diff_pixels, diff_rgba, encode_png,
    expected_len, DiffError, ImageDiff,
};

const BLACK: [u8; 4] = [0, 0, 0, 255];
const WHITE: [u8; 4] = [255, 255, 255, 255];

fn fill(width: u32, height: u32, pixel: [u8; 4]) -> Vec<u8> {
    pixel.repeat((width * height) as usize)
}

fn set_pixel(image: &mut [u8], width: u32, x: u32, y: u32, pixel: [u8; 4]) {
    let start = ((y * width + x) * 4) as usize;
    image[start..start + 4].copy_from_slice(&pixel);
}

/// Counts differing pixels between two single-pixel images, any byte change counting.
fn count(left: [u8; 4], right: [u8; 4]) -> u64 {
    diff_rgba(&left, &right, 1, 1, None, None)
        .unwrap()
        .different_pixels
}

#[test]
fn identical_images_have_no_differences() {
    let image = fill(8, 5, [12, 34, 56, 255]);

    let diff = diff_rgba(&image, &image, 8, 5, None, None).unwrap();

    assert_eq!(diff.different_pixels, 0);
    assert_eq!(diff.total_pixels(), 40);
    assert!(diff.identical());
    assert_eq!(diff.diff_image, None);
}

#[test]
fn zero_tolerance_counts_the_smallest_change() {
    assert_eq!(count([100, 100, 100, 255], [101, 100, 100, 255]), 1);
}

#[test]
fn empty_images_are_identical() {
    let diff = diff_rgba(&[], &[], 0, 4, None, None).unwrap();

    assert_eq!(diff.total_pixels(), 0);
    assert!(diff.identical());
}

#[test]
fn rejects_a_buffer_that_does_not_match_its_dimensions() {
    let error = diff_rgba(&fill(2, 2, WHITE), &fill(2, 1, WHITE), 2, 2, None, None);

    assert_eq!(
        error.unwrap_err().message(),
        "right buffer is 8 bytes, expected 16"
    );
}

#[test]
fn rejects_images_of_different_sizes() {
    let left = encode_png(&fill(2, 2, WHITE), 2, 2).unwrap();
    let right = encode_png(&fill(3, 2, WHITE), 3, 2).unwrap();

    let left = decode(&left, "left").unwrap();
    let right = decode(&right, "right").unwrap();
    let error = check_dimensions(&left, &right).unwrap_err();

    assert_eq!(
        error.message(),
        "images differ in size: left is 2x2, right is 3x2"
    );
}

#[test]
fn rejects_bytes_that_are_not_an_image() {
    let error = decode(b"not an image", "right").unwrap_err();

    assert!(matches!(error, DiffError::Decode { side: "right", .. }), "{error:?}");
    assert!(error.message().starts_with("right image could not be decoded: "));
}

#[test]
fn a_changed_alpha_counts_without_a_tolerance() {
    assert_eq!(count([100, 100, 100, 255], [100, 100, 100, 254]), 1);
    assert_eq!(count([255, 0, 0, 0], [0, 0, 255, 0]), 1);
}

#[test]
fn marks_decide_which_changed_pixels_count() {
    let left = [BLACK, BLACK, BLACK].concat();
    let right = [WHITE, BLACK, WHITE].concat();

    let all = diff_pixels(&left, &right, Some(&[true, true, true]), None).0;
    let some = diff_pixels(&left, &right, Some(&[false, true, true]), None).0;
    let none = diff_pixels(&left, &right, Some(&[false, false, false]), None).0;

    assert_eq!((all, some, none), (2, 1, 0));
    // An unchanged pixel never counts, however it is marked.
    assert_eq!(diff_pixels(&left, &left, Some(&[true, true, true]), None).0, 0);
}

#[test]
fn diff_image_paints_differences_red_and_the_rest_in_their_grey() {
    let (width, height) = (3, 2);
    let left = fill(width, height, BLACK);
    let mut right = left.clone();
    set_pixel(&mut right, width, 2, 1, WHITE);
    let greys = [230, 230, 230, 230, 230, 230];

    let diff = diff_rgba(&left, &right, width, height, None, Some(&greys)).unwrap();

    assert_eq!(diff.different_pixels, 1);
    let image = diff.diff_image.unwrap();
    assert_eq!(image.len(), 24);
    assert_eq!(&image[20..24], &[255, 0, 0, 255]);
    assert_eq!(&image[0..4], &[230, 230, 230, 255]);
}

#[test]
fn bands_add_up_to_the_whole() {
    let (width, height) = (5, 4);
    let left = fill(width, height, [10, 20, 30, 255]);
    let mut right = left.clone();
    for (x, y) in [(0, 0), (4, 1), (2, 2), (3, 3), (1, 3)] {
        set_pixel(&mut right, width, x, y, [10, 20, 31, 255]);
    }
    let whole = diff_rgba(&left, &right, width, height, None, None).unwrap().different_pixels;

    for rows in [1usize, 2, 3] {
        let band = rows * width as usize * 4;
        let sum: u64 = left
            .chunks(band)
            .zip(right.chunks(band))
            .map(|(l, r)| {
                let len = check_band(l, r, None).unwrap();
                assert_eq!(len, l.len());
                diff_pixels(l, r, None, None).0
            })
            .sum();
        assert_eq!(sum, whole, "{rows} rows per band");
    }
    assert_eq!(whole, 5);
}

#[test]
fn band_checks_name_the_buffer_that_is_off() {
    let six = [0u8; 6];
    let four = [0u8; 4];
    let eight = [0u8; 8];

    assert_eq!(check_band(&four, &four, Some(4)), Ok(4));
    assert_eq!(
        check_band(&six, &four, None).unwrap_err().message(),
        "left buffer is 6 bytes, expected 4"
    );
    assert_eq!(
        check_band(&four, &eight, None).unwrap_err().message(),
        "right buffer is 8 bytes, expected 4"
    );
    assert_eq!(
        check_band(&four, &four, Some(8)).unwrap_err().message(),
        "diff buffer is 8 bytes, expected 4"
    );
}

#[test]
fn huge_dimensions_are_too_large() {
    let error = expected_len(u32::MAX, u32::MAX);
    if usize::BITS <= 64 {
        assert_eq!(error.unwrap_err().message(), format!("a {}x{} image is too large", u32::MAX, u32::MAX));
    }
    assert_eq!(expected_len(3, 2), Ok(24));
    assert_eq!(check_len("left", &[0; 24], 24), Ok(()));
}

#[test]
fn total_pixels_multiplies_without_overflow() {
    let diff = ImageDiff { width: u32::MAX, height: u32::MAX, different_pixels: 1, diff_image: None };

    assert_eq!(diff.total_pixels(), u64::from(u32::MAX) * u64::from(u32::MAX));
    assert!(!diff.identical());
}

#[test]
fn encoded_pixels_decode_back() {
    let mut pixels = fill(4, 3, [200, 100, 50, 255]);
    set_pixel(&mut pixels, 4, 1, 1, BLACK);

    let png = encode_png(&pixels, 4, 3).unwrap();
    assert!(png.starts_with(b"\x89PNG\r\n\x1a\n"));
    let image = decode(&png, "left").unwrap();

    assert_eq!((image.width, image.height), (4, 3));
    assert_eq!(image.pixels, pixels);
}

#[test]
fn an_encode_error_has_its_message() {
    assert_eq!(
        DiffError::Encode("no space".to_string()).message(),
        "diff image could not be encoded: no space"
    );
}
