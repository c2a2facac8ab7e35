use circuit_lab::bitmap::{
    render_grey, render_pink, render_red, DecodedImage, MTError, TGBitmap,
};

#[test]
fn new_bitmap_is_zeroed_with_fresh_headers() {
    let b = TGBitmap::new(3, 2);
    assert_eq!(b.rgba.len(), 24);
    assert!(b.rgba.iter().all(|&x| x == 0));
    assert_eq!(b.file_header.type_, 0x4d42);
    assert_eq!(b.info_header.header_size, 54);
    assert_eq!(b.info_header.width, 3);
    assert_eq!(b.info_header.height, 2);
    assert_eq!(b.info_header.bit_per_pixel, 32);
}

#[test]
fn from_stbi_flips_rows_and_swaps_red_and_blue() {
    let image = DecodedImage {
        width: 2,
        height: 1,
        bits_per_pixel: 32,
        buffer: vec![10, 20, 30, 40, 50, 60, 70, 80],
    };
    let b = TGBitmap::from_stbi(image);
    assert_eq!(b.rgba, vec![30, 20, 10, 40, 70, 60, 50, 80]);
    let tall = DecodedImage {
        width: 1,
        height: 2,
        bits_per_pixel: 32,
        buffer: vec![1, 2, 3, 4, 5, 6, 7, 8],
    };
    assert_eq!(TGBitmap::from_stbi(tall).rgba, vec![7, 6, 5, 8, 3, 2, 1, 4]);
}

#[test]
fn render_colors_keep_alpha() {
    let mut b = TGBitmap::new(2, 1);
    b.rgba[3] = 9;
    render_grey(&mut b);
    assert_eq!(b.rgba, vec![155, 155, 155, 9, 155, 155, 155, 0]);
    render_pink(&mut b);
    assert_eq!(b.rgba, vec![203, 192, 255, 9, 203, 192, 255, 0]);
    render_red(&mut b);
    assert_eq!(b.rgba, vec![0, 0, 155, 9, 0, 0, 155, 0]);
}

#[test]
fn bmp_file_bytes_read_back() {
    let mut b = TGBitmap::new(1, 1);
    b.file_header.off_bits = 54;
    b.info_header.x_px_per_meter = -3;
    b.rgba = vec![1, 2, 3, 4];
    let bytes = b.file_bytes();
    assert_eq!(bytes.len(), 58);
    assert_eq!(&bytes[0..2], b"BM");
    assert_eq!(&bytes[10..14], &[54, 0, 0, 0]);
    let back = TGBitmap::from_buffer(&bytes);
    assert_eq!(back.file_header.type_, 0x4d42);
    assert_eq!(back.file_header.off_bits, 54);
    assert_eq!(back.info_header.width, 1);
    assert_eq!(back.info_header.height, 1);
    assert_eq!(back.info_header.x_px_per_meter, -3);
    assert_eq!(back.rgba, vec![1, 2, 3, 4]);
    assert_eq!(back.width, 1);
}

#[test]
fn multithread_errors_compare() {
    assert!(MTError::PreviouslyInit == MTError::PreviouslyInit);
    assert!(MTError::Error != MTError::Default);
}
