use raytracer::image::{Image, ImageError};

#[test]
fn blank_is_opaque_black() {
    let img = Image::blank(3, 2);
    assert_eq!(img.width, 3);
    assert_eq!(img.height, 2);
    assert_eq!(img.bytes.len(), 24);
    for (i, b) in img.bytes.iter().enumerate() {
        assert_eq!(*b, if i % 4 == 3 { 255 } else { 0 });
    }
}

#[test]
fn blank_of_zero_size_is_empty() {
    let img = Image::blank(0, 5);
    assert!(img.bytes.is_empty());
}

#[test]
fn write_to_pixel_sets_four_bytes_only() {
    let mut img = Image::blank(3, 2);
    img.write_to_pixel(2, 1, [10, 20, 30, 40]);
    let offset = (1 * 3 + 2) * 4;
    assert_eq!(&img.bytes[offset..offset + 4], &[10, 20, 30, 40]);
    for (i, b) in img.bytes.iter().enumerate() {
        if i < offset || i >= offset + 4 {
            assert_eq!(*b, if i % 4 == 3 { 255 } else { 0 });
        }
    }
}

#[test]
fn encode_png_writes_a_png_file() {
    let mut img = Image::blank(2, 2);
    img.write_to_pixel(0, 0, [255, 0, 0, 255]);
    let file = img.encode_png().unwrap();
    assert_eq!(&file[..8], &[137, 80, 78, 71, 13, 10, 26, 10]);
    assert!(file.len() > 8 + img.bytes.len() / 4);
}

#[test]
fn encode_png_depends_on_pixels() {
    let a = Image::blank(2, 2);
    let mut b = Image::blank(2, 2);
    b.write_to_pixel(1, 1, [1, 2, 3, 255]);
    assert_ne!(a.encode_png().unwrap(), b.encode_png().unwrap());
}

#[test]
fn encode_png_refuses_zero_width() {
    let img = Image::blank(0, 4);
    assert_eq!(img.encode_png(), Err(ImageError::Encoding));
}

#[test]
fn encode_png_refuses_wrong_buffer_size() {
    let mut img = Image::blank(2, 2);
    img.bytes.pop();
    assert_eq!(img.encode_png(), Err(ImageError::Encoding));
}
