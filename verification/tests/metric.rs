use image::{DynamicImage, Rgba, RgbaImage};
use quadtree_image::metric::{
    abs_err, abs_err_sq, linear_err, mean, mse, pixel_count, region_totals, square_err,
};
use quadtree_image::sums::Quantity;
use quadtree_image::{Color, ColorError, ErrCalc, Raster};

/// A 2 by 2 image whose samples make every mean a fraction.
fn small_raster() -> Raster {
    let samples = [[0u8, 255, 7, 0], [1, 255, 7, 0], [2, 255, 7, 0], [4, 254, 7, 3]];
    let img = RgbaImage::from_fn(2, 2, |x, y| Rgba(samples[(y * 2 + x) as usize]));
    Raster::from_image(DynamicImage::ImageRgba8(img)).unwrap()
}

fn solid_raster(width: u32, height: u32, sample: [u8; 4]) -> Raster {
    Raster::from_image(DynamicImage::ImageRgba8(RgbaImage::from_pixel(width, height, Rgba(sample)))).unwrap()
}

#[test]
fn mean_truncates_towards_zero() {
    let img = small_raster();
    // red 7 / 4, green 1019 / 4, blue 28 / 4, alpha 3 / 4
    assert_eq!(mean(&img, 0, 0, 2, 2), Color { r: 1, g: 254, b: 7, a: 0 });
}

#[test]
fn mean_of_single_pixel_is_that_pixel() {
    let img = small_raster();
    assert_eq!(mean(&img, 1, 1, 1, 1), Color { r: 4, g: 254, b: 7, a: 3 });
    assert_eq!(mean(&img, 0, 1, 1, 1), Color { r: 2, g: 255, b: 7, a: 0 });
}

#[test]
fn mean_of_part_of_image_reads_only_that_part() {
    let img = small_raster();
    // right column: (1, 255, 7, 0) and (4, 254, 7, 3)
    assert_eq!(mean(&img, 1, 0, 1, 2), Color { r: 2, g: 254, b: 7, a: 1 });
    // bottom row: (2, 255, 7, 0) and (4, 254, 7, 3)
    assert_eq!(mean(&img, 0, 1, 2, 1), Color { r: 3, g: 254, b: 7, a: 1 });
}

#[test]
fn abs_err_sums_distances() {
    let img = small_raster();
    let base = Color { r: 1, g: 254, b: 7, a: 0 };
    assert_eq!(abs_err(&img, 0, 0, 2, 2, base), ColorError { r: 5, g: 3, b: 0, a: 3 });
}

#[test]
fn abs_err_measures_against_any_base() {
    let img = small_raster();
    let base = Color { r: 10, g: 0, b: 7, a: 255 };
    assert_eq!(abs_err(&img, 0, 0, 2, 2, base), ColorError { r: 33, g: 1019, b: 0, a: 1017 });
}

#[test]
fn abs_err_sq_sums_squares() {
    let img = small_raster();
    let base = Color { r: 1, g: 254, b: 7, a: 0 };
    assert_eq!(abs_err_sq(&img, 0, 0, 2, 2, base), ColorError { r: 11, g: 3, b: 0, a: 9 });
}

#[test]
fn abs_err_of_empty_region_is_zero() {
    let img = small_raster();
    let base = Color { r: 9, g: 9, b: 9, a: 9 };
    assert_eq!(abs_err(&img, 1, 1, 0, 1, base), ColorError { r: 0, g: 0, b: 0, a: 0 });
    assert_eq!(abs_err_sq(&img, 0, 2, 2, 0, base), ColorError { r: 0, g: 0, b: 0, a: 0 });
}

#[test]
fn region_totals_sums_samples() {
    let img = small_raster();
    assert_eq!(
        region_totals(&img, 0, 0, 2, 2, Quantity::Sample),
        ColorError { r: 7, g: 1019, b: 28, a: 3 }
    );
    assert_eq!(
        region_totals(&img, 1, 0, 1, 2, Quantity::Sample),
        ColorError { r: 5, g: 509, b: 14, a: 3 }
    );
}

#[test]
fn linear_err_pairs_error_with_mean() {
    let img = small_raster();
    let (error, color) = linear_err(&img, 0, 0, 2, 2);
    assert_eq!(color, Color { r: 1, g: 254, b: 7, a: 0 });
    assert_eq!(error, ColorError { r: 5, g: 3, b: 0, a: 3 });
}

#[test]
fn square_err_pairs_error_with_mean() {
    let img = small_raster();
    let (error, color) = square_err(&img, 0, 0, 2, 2);
    assert_eq!(color, Color { r: 1, g: 254, b: 7, a: 0 });
    assert_eq!(error, ColorError { r: 11, g: 3, b: 0, a: 9 });
}

#[test]
fn mse_divides_by_pixel_count() {
    let img = small_raster();
    let (error, color) = mse(&img, 0, 0, 2, 2);
    assert_eq!(color, Color { r: 1, g: 254, b: 7, a: 0 });
    // 11 / 4, 3 / 4, 0 / 4, 9 / 4
    assert_eq!(error, ColorError { r: 2, g: 0, b: 0, a: 2 });
}

#[test]
fn evaluate_applies_the_chosen_metric() {
    let img = small_raster();
    assert_eq!(ErrCalc::Linear.evaluate(&img, 0, 0, 2, 2), linear_err(&img, 0, 0, 2, 2));
    assert_eq!(ErrCalc::Square.evaluate(&img, 0, 0, 2, 2), square_err(&img, 0, 0, 2, 2));
    assert_eq!(ErrCalc::Mse.evaluate(&img, 0, 0, 2, 2), mse(&img, 0, 0, 2, 2));
    let color = Color { r: 2, g: 254, b: 7, a: 1 };
    // right column: red 1 and 4, green 255 and 254, alpha 0 and 3
    assert_eq!(
        ErrCalc::Linear.evaluate(&img, 1, 0, 1, 2),
        (ColorError { r: 3, g: 1, b: 0, a: 3 }, color)
    );
    assert_eq!(
        ErrCalc::Square.evaluate(&img, 1, 0, 1, 2),
        (ColorError { r: 5, g: 1, b: 0, a: 5 }, color)
    );
    assert_eq!(
        ErrCalc::Mse.evaluate(&img, 1, 0, 1, 2),
        (ColorError { r: 2, g: 0, b: 0, a: 2 }, color)
    );
}

#[test]
fn metrics_agree_on_uniform_region() {
    let sample = [9, 8, 7, 6];
    let img = solid_raster(3, 5, sample);
    let color = Color { r: 9, g: 8, b: 7, a: 6 };
    let zero = ColorError { r: 0, g: 0, b: 0, a: 0 };
    assert_eq!(linear_err(&img, 0, 0, 3, 5), (zero, color));
    assert_eq!(square_err(&img, 0, 0, 3, 5), (zero, color));
    assert_eq!(mse(&img, 0, 0, 3, 5), (zero, color));
    assert_eq!(linear_err(&img, 1, 2, 2, 3), (zero, color));
    assert_eq!(square_err(&img, 1, 2, 2, 3), (zero, color));
    assert_eq!(mse(&img, 1, 2, 2, 3), (zero, color));
}

#[test]
fn metrics_agree_on_uniform_part_of_varied_image() {
    let img = RgbaImage::from_fn(4, 4, |x, _| {
        if x < 2 {
            Rgba([50, 60, 70, 80])
        } else {
            Rgba([(x * 40) as u8, 0, 0, 255])
        }
    });
    let img = Raster::from_image(DynamicImage::ImageRgba8(img)).unwrap();
    let color = Color { r: 50, g: 60, b: 70, a: 80 };
    let zero = ColorError { r: 0, g: 0, b: 0, a: 0 };
    assert_eq!(linear_err(&img, 0, 0, 2, 4), (zero, color));
    assert_eq!(square_err(&img, 0, 0, 2, 4), (zero, color));
    assert_eq!(mse(&img, 0, 0, 2, 4), (zero, color));
}

#[test]
fn squared_error_exceeds_thirty_two_bits() {
    let img = RgbaImage::from_fn(256, 256, |_, _| Rgba([255, 255, 255, 255]));
    let img = Raster::from_image(DynamicImage::ImageRgba8(img)).unwrap();
    let base = Color { r: 0, g: 0, b: 0, a: 0 };
    let all = 65536u128 * 65025;
    assert_eq!(abs_err_sq(&img, 0, 0, 256, 256, base), ColorError { r: all, g: all, b: all, a: all });
}

#[test]
fn pixel_count_is_width_times_height() {
    assert_eq!(pixel_count(3, 5), 15);
    assert_eq!(pixel_count(0, 7), 0);
    assert_eq!(pixel_count(u32::MAX, u32::MAX), 18446744065119617025);
}

#[test]
fn raster_reports_size_and_pixels() {
    let img = small_raster();
    assert_eq!(img.width(), 2);
    assert_eq!(img.height(), 2);
    assert_eq!(img.get(1, 0), Some(Color { r: 1, g: 255, b: 7, a: 0 }));
    assert_eq!(img.get(0, 1), Some(Color { r: 2, g: 255, b: 7, a: 0 }));
}

#[test]
fn raster_get_outside_is_none() {
    let img = solid_raster(3, 2, [1, 2, 3, 4]);
    assert_eq!(img.get(3, 0), None);
    assert_eq!(img.get(0, 2), None);
    assert_eq!(img.get(u32::MAX, u32::MAX), None);
    assert_eq!(img.get(2, 1), Some(Color { r: 1, g: 2, b: 3, a: 4 }));
}

#[test]
fn raster_from_rgb_image_is_opaque() {
    let img = image::RgbImage::from_pixel(2, 3, image::Rgb([10, 20, 30]));
    let img = Raster::from_image(DynamicImage::ImageRgb8(img)).unwrap();
    assert_eq!(img.width(), 2);
    assert_eq!(img.height(), 3);
    assert_eq!(img.get(1, 2), Some(Color { r: 10, g: 20, b: 30, a: 255 }));
}

#[test]
fn raster_from_grey_images_repeats_the_sample() {
    let img = image::GrayImage::from_pixel(2, 1, image::Luma([77]));
    let img = Raster::from_image(DynamicImage::ImageLuma8(img)).unwrap();
    assert_eq!(img.get(1, 0), Some(Color { r: 77, g: 77, b: 77, a: 255 }));
    let img = image::GrayAlphaImage::from_pixel(1, 2, image::LumaA([9, 40]));
    let img = Raster::from_image(DynamicImage::ImageLumaA8(img)).unwrap();
    assert_eq!(img.get(0, 1), Some(Color { r: 9, g: 9, b: 9, a: 40 }));
}

#[test]
fn raster_from_sixteen_bit_images_narrows_the_samples() {
    let img = image::ImageBuffer::from_pixel(1, 1, image::Luma([65535u16]));
    let img = Raster::from_image(DynamicImage::ImageLuma16(img)).unwrap();
    assert_eq!(img.get(0, 0), Some(Color { r: 255, g: 255, b: 255, a: 255 }));
    let img = image::ImageBuffer::from_pixel(1, 1, image::LumaA([0u16, 65535]));
    let img = Raster::from_image(DynamicImage::ImageLumaA16(img)).unwrap();
    assert_eq!(img.get(0, 0), Some(Color { r: 0, g: 0, b: 0, a: 255 }));
    let img = image::ImageBuffer::from_pixel(1, 1, image::Rgb([0u16, 65535, 257]));
    let img = Raster::from_image(DynamicImage::ImageRgb16(img)).unwrap();
    assert_eq!(img.get(0, 0), Some(Color { r: 0, g: 255, b: 1, a: 255 }));
    let img = image::ImageBuffer::from_pixel(1, 1, image::Rgba([65535u16, 0, 514, 771]));
    let img = Raster::from_image(DynamicImage::ImageRgba16(img)).unwrap();
    assert_eq!(img.get(0, 0), Some(Color { r: 255, g: 0, b: 2, a: 3 }));
}

#[test]
fn raster_from_floating_point_image_is_none() {
    let img = image::Rgb32FImage::from_pixel(2, 2, image::Rgb([0.5, 0.25, 1.0]));
    assert!(Raster::from_image(DynamicImage::ImageRgb32F(img)).is_none());
    let img = image::Rgba32FImage::from_pixel(2, 2, image::Rgba([0.5, 0.25, 1.0, 1.0]));
    assert!(Raster::from_image(DynamicImage::ImageRgba32F(img)).is_none());
    let img = image::Rgba32FImage::from_pixel(1, 1, image::Rgba([f32::NAN, 0.0, 0.0, 1.0]));
    assert!(Raster::from_image(DynamicImage::ImageRgba32F(img)).is_none());
}
