use neck_sim::render::colour;
use neck_sim::{draw, encode, raster, EncodeError, Path};

const T: Option<bool> = Some(true);
const F: Option<bool> = Some(false);
const N: Option<bool> = None;

const WHITE: [u8; 3] = [255, 255, 255];
const GREEN: [u8; 3] = [0, 255, 0];
const RED: [u8; 3] = [255, 0, 0];
const BLACK: [u8; 3] = [0, 0, 0];

#[test]
fn inputs_have_their_colours() {
    assert_eq!(colour(N), (255, 255, 255));
    assert_eq!(colour(T), (0, 255, 0));
    assert_eq!(colour(F), (255, 0, 0));
}

#[test]
fn rows_read_first_frame_first() {
    // The inputs are kept last frame first, so the last entry is drawn at
    // the left.
    let paths = vec![Path::new(&[0], &[T, N, F]), Path::new(&[0], &[F, F, N])];
    let bytes = raster(&paths, 3);
    let expected: Vec<u8> = [RED, WHITE, GREEN, WHITE, RED, RED].concat();
    assert_eq!(bytes, expected);
}

#[test]
fn short_rows_are_black_at_the_left() {
    let paths = vec![Path::new(&[0], &[T]), Path::new(&[0], &[])];
    let bytes = raster(&paths, 2);
    let expected: Vec<u8> = [BLACK, GREEN, BLACK, BLACK].concat();
    assert_eq!(bytes, expected);
}

#[test]
fn raster_without_rows_or_columns_is_empty() {
    assert!(raster(&Vec::new(), 7).is_empty());
    assert!(raster(&vec![Path::new(&[0], &[])], 0).is_empty());
}

#[test]
fn picture_decodes_to_the_raster() {
    let paths = vec![
        Path::new(&[0], &[T, N, F, F]),
        Path::new(&[0], &[N, N, N, T]),
        Path::new(&[0], &[F, T, F, T]),
    ];
    let file = draw(&paths, 4).unwrap();
    assert_eq!(&file[..8], &[0x89, b'P', b'N', b'G', 0x0D, 0x0A, 0x1A, 0x0A]);
    let picture = image::load_from_memory(&file).unwrap().to_rgb8();
    assert_eq!(picture.dimensions(), (4, 3));
    assert_eq!(picture.into_raw(), raster(&paths, 4));
    assert_eq!(encode(&raster(&paths, 4), 4, 3).unwrap(), file);
}

#[test]
fn raster_of_the_wrong_size_is_refused() {
    assert_eq!(encode(&vec![0; 5], 1, 2), Err(EncodeError::BadSize));
    assert_eq!(encode(&vec![0; 7], 1, 2), Err(EncodeError::BadSize));
    assert!(encode(&vec![0; 6], 1, 2).is_ok());
}

#[test]
fn picture_without_pixels_cannot_be_encoded() {
    assert_eq!(encode(&Vec::new(), 0, 3), Err(EncodeError::Failed));
    assert_eq!(encode(&Vec::new(), 3, 0), Err(EncodeError::Failed));
    assert_eq!(draw(&Vec::new(), 5), Err(EncodeError::Failed));
    assert_eq!(draw(&vec![Path::new(&[0], &[])], 0), Err(EncodeError::Failed));
}

#[test]
fn picture_wider_than_32_bits_is_refused() {
    let wide = u32::MAX as u64 + 1;
    if let Ok(width) = usize::try_from(wide) {
        assert_eq!(encode(&Vec::new(), width, 0), Err(EncodeError::TooLarge));
        assert_eq!(encode(&Vec::new(), 0, width), Err(EncodeError::TooLarge));
        assert_eq!(draw(&Vec::new(), width), Err(EncodeError::TooLarge));
    }
}
