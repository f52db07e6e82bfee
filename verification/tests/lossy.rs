use inkvec_trace::{
    decode_image, decode_image_with_dims, lossy_container, lossy_from_format, with_dims_from_decoded,
    ContainerFormat, TraceError,
};

/// A real encode of each, so the test fails if the `image` crate ever disagrees with the
/// byte patterns this reads.
fn encode(fmt: image::ImageFormat) -> Vec<u8> {
    let img = image::DynamicImage::ImageRgb8(image::RgbImage::from_fn(24, 24, |x, y| {
        image::Rgb([(x * 10) as u8, (y * 10) as u8, 90])
    }));
    let mut buf = std::io::Cursor::new(Vec::new());
    img.write_to(&mut buf, fmt).unwrap();
    buf.into_inner()
}

#[test]
fn jpeg_is_lossy_and_png_is_not() {
    assert_eq!(lossy_container(&encode(image::ImageFormat::Jpeg)), Some(true));
    assert_eq!(lossy_container(&encode(image::ImageFormat::Png)), Some(false));
}

#[test]
fn a_header_is_enough() {
    // The caller only reads the first bytes of the file, so the answer must not need the
    // rest of it.
    let jpeg = encode(image::ImageFormat::Jpeg);
    assert_eq!(lossy_container(&jpeg[..32.min(jpeg.len())]), Some(true));
}

#[test]
fn webp_is_read_from_the_riff_chunk() {
    let mut b = b"RIFF\0\0\0\0WEBPVP8 ".to_vec();
    assert_eq!(lossy_container(&b), Some(true));
    b[12..16].copy_from_slice(b"VP8L");
    assert_eq!(lossy_container(&b), Some(false));
    // The extended container needs its sub-chunks walked; do not guess at it.
    b[12..16].copy_from_slice(b"VP8X");
    assert_eq!(lossy_container(&b), None);
}

#[test]
fn nonsense_is_unknown_not_clean() {
    assert_eq!(lossy_container(b"not an image at all"), None);
}

#[test]
fn every_lossless_container_is_clean() {
    for f in [ContainerFormat::Png, ContainerFormat::Gif, ContainerFormat::Bmp, ContainerFormat::Tiff] {
        assert_eq!(lossy_from_format(Some(f), b""), Some(false));
    }
    assert_eq!(lossy_from_format(Some(ContainerFormat::Jpeg), b""), Some(true));
    assert_eq!(lossy_from_format(Some(ContainerFormat::Other), b"RIFF\0\0\0\0WEBPVP8 "), None);
    assert_eq!(lossy_from_format(None, b""), None);
}

#[test]
fn a_webp_too_short_for_its_chunk_is_unknown() {
    assert_eq!(lossy_from_format(Some(ContainerFormat::WebP), b"RIFF\0\0\0\0WEBPVP8"), None);
    assert_eq!(lossy_container(b"RIFF\0\0\0\0WEBPVP8"), None);
}

#[test]
fn gif_and_bmp_headers_are_clean() {
    assert_eq!(lossy_container(&encode(image::ImageFormat::Gif)), Some(false));
    assert_eq!(lossy_container(&encode(image::ImageFormat::Bmp)), Some(false));
}

#[test]
fn a_png_decodes_to_its_pixels() {
    let png = encode(image::ImageFormat::Png);
    let img = decode_image(&png).ok().unwrap();
    assert_eq!((img.width, img.height), (24, 24));
    assert_eq!(img.data.len(), 24 * 24 * 4);
    // Pixel (3, 2): red 30, green 20, blue 90, opaque.
    let p = (2 * 24 + 3) * 4;
    assert_eq!(&img.data[p..p + 4], &[30, 20, 90, 255]);
}

#[test]
fn garbage_is_a_decode_error() {
    match decode_image(b"not an image at all") {
        Err(TraceError::Decode(m)) => assert!(!m.is_empty()),
        _ => panic!("expected a decode error"),
    }
}

#[test]
fn formats_the_tracer_does_not_tell_apart_are_unknown() {
    for b in [
        &b"DDS \x7c\0\0\0"[..],
        b"\0\0\x01\0\x01\0",
        b"#?RADIANCE\n",
        b"\0\0\0\x1cftypavif\0\0",
        b"\x76\x2f\x31\x01\x02\0\0\0",
        b"qoif\0\0\0\x01",
        b"P6\n1 1\n255\n",
        b"P1\n",
        b"farbfeld\0\0",
    ] {
        assert_eq!(lossy_container(b), None);
    }
    // "P8" is no netpbm signature, and "B" alone no BMP.
    assert_eq!(lossy_container(b"P8\n"), None);
    assert_eq!(lossy_container(b"B"), None);
}

#[test]
fn tiff_and_bmp_signatures_alone_are_clean() {
    assert_eq!(lossy_container(b"MM\0*"), Some(false));
    assert_eq!(lossy_container(b"II*\0"), Some(false));
    assert_eq!(lossy_container(b"BM"), Some(false));
    assert_eq!(lossy_container(b"GIF87a"), Some(false));
    assert_eq!(lossy_container(b"\xff\xd8\xff"), Some(true));
}

fn png_bytes(w: u32, h: u32) -> Vec<u8> {
    let img = image::DynamicImage::ImageRgb8(image::RgbImage::from_pixel(w, h, image::Rgb([200, 30, 30])));
    let mut buf = std::io::Cursor::new(Vec::new());
    img.write_to(&mut buf, image::ImageFormat::Png).unwrap();
    buf.into_inner()
}

#[test]
fn decoding_keeps_the_arrival_dimensions() {
    let bytes = png_bytes(512, 256);
    let (img, (aw, ah)) = decode_image_with_dims(&bytes).ok().unwrap();
    assert_eq!((aw, ah), (512, 256), "arrival dimensions must be preserved");
    assert_eq!((img.width, img.height), (512, 256));
    assert_eq!(img.data.len(), 512 * 256 * 4);
    assert_eq!(&img.data[0..4], &[200, 30, 30, 255]);
}

#[test]
fn an_unreadable_header_is_a_decode_error() {
    match decode_image_with_dims(b"not an image at all") {
        Err(TraceError::Decode(m)) => assert!(!m.is_empty()),
        _ => panic!("expected a decode error"),
    }
    // A PNG cut short after its header: the dimensions are read, the pixels are not.
    let bytes = png_bytes(8, 8);
    match decode_image_with_dims(&bytes[..40]) {
        Err(TraceError::Decode(m)) => assert!(!m.is_empty()),
        _ => panic!("expected a decode error"),
    }
}

#[test]
fn the_header_error_comes_before_the_decode_error() {
    match with_dims_from_decoded(Err("no header".to_string()), Err("no pixels".to_string())) {
        Err(TraceError::Decode(m)) => assert_eq!(m, "no header"),
        _ => panic!("expected the header's error"),
    }
    match with_dims_from_decoded(Ok((3, 1)), Err("no pixels".to_string())) {
        Err(TraceError::Decode(m)) => assert_eq!(m, "no pixels"),
        _ => panic!("expected the decoder's error"),
    }
    let (img, dims) = with_dims_from_decoded(Ok((6, 2)), Ok((3, 1, vec![1, 2, 3, 4, 5, 6, 7, 8, 9, 10, 11, 12])))
        .ok()
        .unwrap();
    assert_eq!(dims, (6, 2));
    assert_eq!((img.width, img.height), (3, 1));
    assert_eq!(img.data, vec![1, 2, 3, 4, 5, 6, 7, 8, 9, 10, 11, 12]);
}
