use foxtrot_mesh::encode::{placeholder_png, thumbnail_pixels, thumbnail_png, ThumbnailError};

fn decode(bytes: &[u8]) -> (u32, u32, Vec<u8>) {
    let decoder = png::Decoder::new(std::io::Cursor::new(bytes));
    let mut reader = decoder.read_info().unwrap();
    let mut buf = vec![0; reader.output_buffer_size().unwrap()];
    let info = reader.next_frame(&mut buf).unwrap();
    buf.truncate(info.buffer_size());
    (info.width, info.height, buf)
}

#[test]
fn placeholder_png_decodes_to_placeholder() {
    let bytes = placeholder_png(2, false).unwrap();
    assert_eq!(&bytes[..8], &[137, 80, 78, 71, 13, 10, 26, 10]);
    let (w, h, px) = decode(&bytes);
    assert_eq!((w, h), (2, 2));
    assert_eq!(px, vec![255, 0, 0, 255, 255, 255, 255, 255, 255, 255, 255, 255, 255, 0, 0, 255]);
}

#[test]
fn placeholder_png_of_zero_size_fails() {
    assert_eq!(placeholder_png(0, true), Err(ThumbnailError::Encoding));
}

#[test]
fn thumbnail_swaps_and_flips() {
    // Two rows of two BGRA pixels.
    let buffer = vec![
        1, 2, 3, 4, 5, 6, 7, 8, //
        9, 10, 11, 12, 13, 14, 15, 16,
    ];
    let bytes = thumbnail_png(&buffer, 2, false, false).unwrap();
    let (w, h, px) = decode(&bytes);
    assert_eq!((w, h), (2, 2));
    assert_eq!(px, vec![11, 10, 9, 12, 15, 14, 13, 16, 3, 2, 1, 4, 7, 6, 5, 8]);
}

#[test]
fn thumbnail_keeps_transparent_channels() {
    let buffer = vec![
        1, 2, 3, 4, 5, 6, 7, 8, //
        9, 10, 11, 12, 13, 14, 15, 16,
    ];
    let bytes = thumbnail_png(&buffer, 2, true, false).unwrap();
    let (_, _, px) = decode(&bytes);
    assert_eq!(px, vec![9, 10, 11, 12, 13, 14, 15, 16, 1, 2, 3, 4, 5, 6, 7, 8]);
}

#[test]
fn thumbnail_crop_writes_content_box() {
    // A white opaque 3 by 3 render with dark pixels at (0, 0) and (1, 0):
    // after the flip they sit in the last row, and the crop keeps a 2 by 1
    // image.
    let mut buffer = vec![255u8; 36];
    buffer[0] = 1;
    buffer[4] = 2;
    let bytes = thumbnail_png(&buffer, 3, false, true).unwrap();
    let (w, h, px) = decode(&bytes);
    assert_eq!((w, h), (2, 1));
    assert_eq!(px, vec![255, 255, 1, 255, 255, 255, 2, 255]);
}

#[test]
fn thumbnail_crop_of_full_content_is_kept() {
    let buffer = vec![0u8; 16];
    let bytes = thumbnail_png(&buffer, 2, false, true).unwrap();
    let (_, _, px) = decode(&bytes);
    assert_eq!(px, vec![0u8; 16]);
}

#[test]
fn thumbnail_pixels_crop_to_content() {
    // A white opaque 2 by 2 render with one dark pixel in its first row:
    // after the flip it sits in the second row, and the crop keeps it alone.
    let mut buffer = vec![255u8; 16];
    buffer[4] = 10;
    buffer[5] = 20;
    buffer[6] = 30;
    assert_eq!(thumbnail_pixels(&buffer, 2, false, true), (vec![30, 20, 10, 255], 1, 1));
    let (full, w, h) = thumbnail_pixels(&buffer, 2, false, false);
    assert_eq!((w, h), (2, 2));
    assert_eq!(full[12..16].to_vec(), vec![30, 20, 10, 255]);
}

#[test]
fn thumbnail_of_requested_size_is_written() {
    let buffer = vec![0u8; 3 * 3 * 4];
    let bytes = thumbnail_png(&buffer, 3, true, false).unwrap();
    let (w, h, px) = decode(&bytes);
    assert_eq!((w, h), (3, 3));
    assert_eq!(px, buffer);
    assert!(placeholder_png(1, true).is_ok());
}
