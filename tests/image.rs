use raytrace::image::{decode_ppm, encode_ppm, gradient_pixel, render_gradient, Image};
use raytrace::vec3::{Color, Vec3};

fn text(s: &str) -> Vec<u8> {
    s.as_bytes().to_vec()
}

#[test]
fn two_by_one_gradient_text() {
    let img = render_gradient(2, 1);
    assert_eq!(encode_ppm(&img), text("P3\n2 1\n255\n0 0 0\n255 0 0\n"));
}

#[test]
fn one_by_one_gradient_text() {
    let img = render_gradient(1, 1);
    assert_eq!(encode_ppm(&img), text("P3\n1 1\n255\n0 0 0\n"));
}

#[test]
fn empty_image_text() {
    let img = render_gradient(0, 0);
    assert_eq!(encode_ppm(&img), text("P3\n0 0\n255\n"));
    let back = decode_ppm(&text("P3\n0 0\n255\n")).unwrap();
    assert_eq!(back.width(), 0);
    assert_eq!(back.height(), 0);
}

#[test]
fn gradient_corners_and_middle() {
    assert_eq!(gradient_pixel(0, 0, 256, 144), Vec3::new(0, 0, 0));
    assert_eq!(gradient_pixel(255, 0, 256, 144), Vec3::new(255, 0, 0));
    assert_eq!(gradient_pixel(0, 143, 256, 144), Vec3::new(0, 255, 0));
    assert_eq!(gradient_pixel(255, 143, 256, 144), Vec3::new(255, 255, 0));
    assert_eq!(gradient_pixel(128, 72, 256, 144), Vec3::new(128, 128, 0));
}

#[test]
fn rendered_pixels_are_row_major() {
    let img = render_gradient(3, 2);
    assert_eq!(img.width(), 3);
    assert_eq!(img.height(), 2);
    assert_eq!(img.pixel(0, 0), Vec3::new(0, 0, 0));
    assert_eq!(img.pixel(1, 0), Vec3::new(127, 0, 0));
    assert_eq!(img.pixel(2, 0), Vec3::new(255, 0, 0));
    assert_eq!(img.pixel(2, 1), Vec3::new(255, 255, 0));
    assert_eq!(
        encode_ppm(&img),
        text("P3\n3 2\n255\n0 0 0\n127 0 0\n255 0 0\n0 255 0\n127 255 0\n255 255 0\n")
    );
}

#[test]
fn decoding_the_encoding_gives_the_image_back() {
    let pixels: Vec<Color> = vec![
        Vec3::new(0, 10, 255),
        Vec3::new(9, 100, 7),
        Vec3::new(200, 0, 42),
        Vec3::new(1, 2, 3),
    ];
    let img = Image::new(2, 2, pixels).unwrap();
    let bytes = encode_ppm(&img);
    assert_eq!(
        bytes,
        text("P3\n2 2\n255\n0 10 255\n9 100 7\n200 0 42\n1 2 3\n")
    );
    let back = decode_ppm(&bytes).unwrap();
    assert_eq!(back.width(), 2);
    assert_eq!(back.height(), 2);
    for j in 0..2 {
        for i in 0..2 {
            assert_eq!(back.pixel(i, j), img.pixel(i, j));
        }
    }
    assert_eq!(encode_ppm(&back), bytes);
}

#[test]
fn decoding_a_rendered_gradient() {
    let img = render_gradient(5, 4);
    let back = decode_ppm(&encode_ppm(&img)).unwrap();
    assert_eq!(back.width(), 5);
    assert_eq!(back.height(), 4);
    for j in 0..4 {
        for i in 0..5 {
            assert_eq!(back.pixel(i, j), gradient_pixel(i, j, 5, 4));
        }
    }
}

#[test]
fn decoding_refuses_malformed_text() {
    assert!(decode_ppm(&text("P6\n1 1\n255\n0 0 0\n")).is_none());
    assert!(decode_ppm(&text("P3\n01 1\n255\n0 0 0\n")).is_none());
    assert!(decode_ppm(&text("P3\n1 1\n255\n0 0 256\n")).is_none());
    assert!(decode_ppm(&text("P3\n1 1\n255\n0 0 0")).is_none());
    assert!(decode_ppm(&text("P3\n1 1\n255\n0 0 0\n0 0 0\n")).is_none());
    assert!(decode_ppm(&text("P3\n2 1\n255\n0 0 0\n")).is_none());
    assert!(decode_ppm(&text("P3\n1 1\n256\n0 0 0\n")).is_none());
    assert!(decode_ppm(&text("P3\n1  1\n255\n0 0 0\n")).is_none());
    assert!(decode_ppm(&text("")).is_none());
}

#[test]
fn image_needs_one_color_per_cell() {
    let pixels: Vec<Color> = vec![Vec3::new(1, 2, 3)];
    assert!(Image::new(2, 1, pixels.clone()).is_none());
    assert!(Image::new(1, 1, pixels).is_some());
}
