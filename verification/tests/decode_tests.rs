use image_to_ansi::decode::{bytes_to_triplets, decode_image, image_from_rgb, ImageError};

#[test]
fn bytes_to_triplets_groups_by_three() {
    let bytes = [1u8, 2, 3, 4, 5, 6, 7, 8];
    assert_eq!(bytes_to_triplets(&bytes), vec![(1, 2, 3), (4, 5, 6)]);
    assert!(bytes_to_triplets(&[9, 9]).is_empty());
}

#[test]
fn image_from_rgb_keeps_size() {
    let image = image_from_rgb(&[0, 0, 0, 255, 255, 255], 2, 1, 3);
    assert_eq!(image.pixels, vec![(0, 0, 0), (255, 255, 255)]);
    assert_eq!((image.width, image.height, image.components), (2, 1, 3));
}

#[test]
fn decode_image_refuses_non_jpeg_bytes() {
    assert!(matches!(decode_image(b"not a jpeg"), Err(ImageError::Decode)));
    assert!(matches!(decode_image(&[]), Err(ImageError::Decode)));
}

/// An 8 x 8 grey baseline JPEG: one component, every coefficient zero.
fn grey_jpeg() -> Vec<u8> {
    let mut b = vec![0xFF, 0xD8];
    b.extend_from_slice(&[0xFF, 0xDB, 0x00, 0x43, 0x00]);
    b.extend_from_slice(&[1u8; 64]);
    b.extend_from_slice(&[0xFF, 0xC0, 0x00, 0x0B, 0x08, 0x00, 0x08, 0x00, 0x08, 0x01, 0x01, 0x11, 0x00]);
    let table = |class: u8| {
        let mut t = vec![0xFF, 0xC4, 0x00, 0x14, class, 0x01];
        t.extend_from_slice(&[0u8; 15]);
        t.push(0x00);
        t
    };
    b.extend(table(0x00));
    b.extend(table(0x10));
    b.extend_from_slice(&[0xFF, 0xDA, 0x00, 0x08, 0x01, 0x01, 0x00, 0x00, 0x3F, 0x00]);
    b.push(0x3F);
    b.extend_from_slice(&[0xFF, 0xD9]);
    b
}

#[test]
fn decode_image_of_a_grey_jpeg() {
    let image = decode_image(&grey_jpeg()).unwrap();
    assert_eq!((image.width, image.height), (8, 8));
    assert_eq!(image.components, 1);
    assert_eq!(image.pixels.len(), 64);
    let first = image.pixels[0];
    assert!(image.pixels.iter().all(|&p| p == first));
    assert_eq!(first.0, first.1);
    assert_eq!(first.1, first.2);
}
