use image::{DynamicImage, Rgba, RgbaImage};
use quadtree_image::{Chunk, Color, ErrCalc, Raster};

fn chunk_test_raster() -> Raster {
    let samples = [[0u8, 255, 7, 0], [1, 255, 7, 0], [2, 255, 7, 0], [4, 254, 7, 3]];
    let img = RgbaImage::from_fn(2, 2, |x, y| Rgba(samples[(y * 2 + x) as usize]));
    Raster::from_image(DynamicImage::ImageRgba8(img)).unwrap()
}

/// An 8 by 8 image that changes from pixel to pixel in every channel.
fn chunk_test_gradient() -> Raster {
    let img = RgbaImage::from_fn(8, 8, |x, y| {
        Rgba([(32 * x + 3 * y) as u8, (255 - 30 * y) as u8, (x * y * 5) as u8, (200 + x) as u8])
    });
    Raster::from_image(DynamicImage::ImageRgba8(img)).unwrap()
}

fn red_row(samples: &[u8]) -> Raster {
    let img = RgbaImage::from_fn(samples.len() as u32, 1, |x, _| Rgba([samples[x as usize], 0, 0, 255]));
    Raster::from_image(DynamicImage::ImageRgba8(img)).unwrap()
}

fn rectangles(chunks: &[Chunk]) -> Vec<(u32, u32, u32, u32)> {
    chunks.iter().map(|c| (c.x, c.y, c.width, c.height)).collect()
}

#[test]
fn chunk_error_sums_colour_channels_and_leaves_alpha_out() {
    let img = chunk_test_raster();
    let color = Color { r: 1, g: 254, b: 7, a: 0 };
    let linear = Chunk::from_img(&img, 0, 0, 2, 2, ErrCalc::Linear);
    assert_eq!(linear, Chunk { x: 0, y: 0, width: 2, height: 2, color, error: 8 });
    let square = Chunk::from_img(&img, 0, 0, 2, 2, ErrCalc::Square);
    assert_eq!(square, Chunk { x: 0, y: 0, width: 2, height: 2, color, error: 14 });
    let mse = Chunk::from_img(&img, 0, 0, 2, 2, ErrCalc::Mse);
    assert_eq!(mse, Chunk { x: 0, y: 0, width: 2, height: 2, color, error: 2 });
}

#[test]
fn chunk_error_is_zero_where_only_alpha_varies() {
    let img = RgbaImage::from_fn(3, 3, |x, y| Rgba([5, 6, 7, (x * 80 + y) as u8]));
    let img = Raster::from_image(DynamicImage::ImageRgba8(img)).unwrap();
    for metric in [ErrCalc::Linear, ErrCalc::Square, ErrCalc::Mse] {
        let chunk = Chunk::from_img(&img, 0, 0, 3, 3, metric);
        assert_eq!(chunk.error, 0);
        // alpha: 0 1 2 80 81 82 160 161 162, mean 81
        assert_eq!(chunk.color, Color { r: 5, g: 6, b: 7, a: 81 });
    }
}

#[test]
fn chunk_keeps_its_rectangle() {
    let img = chunk_test_gradient();
    let chunk = Chunk::from_img(&img, 3, 1, 4, 6, ErrCalc::Square);
    assert_eq!((chunk.x, chunk.y, chunk.width, chunk.height), (3, 1, 4, 6));
}

#[test]
fn chunk_of_gradient_has_expected_colour_and_error() {
    let img = chunk_test_gradient();
    let color = Color { r: 122, g: 150, b: 61, a: 203 };
    assert_eq!(
        Chunk::from_img(&img, 0, 0, 8, 8, ErrCalc::Square),
        Chunk { x: 0, y: 0, width: 8, height: 8, color, error: 899408 }
    );
    assert_eq!(
        Chunk::from_img(&img, 0, 0, 8, 8, ErrCalc::Mse),
        Chunk { x: 0, y: 0, width: 8, height: 8, color, error: 14052 }
    );
}

#[test]
fn split_gives_four_quadrants() {
    let img = chunk_test_gradient();
    let parent = Chunk::from_img(&img, 0, 0, 8, 8, ErrCalc::Square);
    let children = parent.split(&img, ErrCalc::Square);
    assert_eq!(
        children,
        vec![
            Chunk { x: 0, y: 0, width: 4, height: 4, color: Color { r: 52, g: 210, b: 11, a: 201 }, error: 41540 },
            Chunk { x: 4, y: 0, width: 4, height: 4, color: Color { r: 180, g: 210, b: 41, a: 205 }, error: 55540 },
            Chunk { x: 0, y: 4, width: 4, height: 4, color: Color { r: 64, g: 90, b: 41, a: 201 }, error: 55540 },
            Chunk { x: 4, y: 4, width: 4, height: 4, color: Color { r: 192, g: 90, b: 151, a: 205 }, error: 69540 },
        ]
    );
}

#[test]
fn split_gives_odd_pixel_to_right_and_lower_part() {
    let img = chunk_test_gradient();
    let parent = Chunk::from_img(&img, 1, 2, 5, 3, ErrCalc::Linear);
    let children = parent.split(&img, ErrCalc::Linear);
    assert_eq!(rectangles(&children), vec![(1, 2, 2, 1), (3, 2, 3, 1), (1, 3, 2, 2), (3, 3, 3, 2)]);
}

#[test]
fn split_of_row_gives_left_and_right() {
    let img = chunk_test_gradient();
    let parent = Chunk::from_img(&img, 2, 7, 5, 1, ErrCalc::Mse);
    let children = parent.split(&img, ErrCalc::Mse);
    assert_eq!(rectangles(&children), vec![(2, 7, 2, 1), (4, 7, 3, 1)]);
}

#[test]
fn split_of_column_gives_upper_and_lower() {
    let img = chunk_test_gradient();
    let parent = Chunk::from_img(&img, 6, 1, 1, 5, ErrCalc::Square);
    let children = parent.split(&img, ErrCalc::Square);
    assert_eq!(rectangles(&children), vec![(6, 1, 1, 2), (6, 3, 1, 3)]);
}

#[test]
fn split_of_two_pixels_gives_two_pixels() {
    let img = chunk_test_gradient();
    let across = Chunk::from_img(&img, 0, 0, 2, 1, ErrCalc::Square).split(&img, ErrCalc::Square);
    assert_eq!(rectangles(&across), vec![(0, 0, 1, 1), (1, 0, 1, 1)]);
    let down = Chunk::from_img(&img, 0, 0, 1, 2, ErrCalc::Square).split(&img, ErrCalc::Square);
    assert_eq!(rectangles(&down), vec![(0, 0, 1, 1), (0, 1, 1, 1)]);
}

#[test]
fn split_of_single_pixel_gives_nothing() {
    let img = chunk_test_gradient();
    for metric in [ErrCalc::Linear, ErrCalc::Square, ErrCalc::Mse] {
        let pixel = Chunk::from_img(&img, 5, 5, 1, 1, metric);
        assert_eq!(pixel.error, 0);
        assert_eq!(pixel.split(&img, metric), vec![]);
    }
}

#[test]
fn split_evaluates_each_child() {
    let img = chunk_test_gradient();
    for metric in [ErrCalc::Linear, ErrCalc::Square, ErrCalc::Mse] {
        let parent = Chunk::from_img(&img, 1, 0, 7, 5, metric);
        for child in parent.split(&img, metric) {
            assert_eq!(child, Chunk::from_img(&img, child.x, child.y, child.width, child.height, metric));
        }
    }
}

/// Checks, for a chunk and all that descend from it, that a split does not
/// raise the error.
fn check_split_keeps_error(img: &Raster, parent: Chunk, metric: ErrCalc) {
    let children = parent.split(img, metric);
    if children.is_empty() {
        return;
    }
    let area = |c: &Chunk| (c.width as u128) * (c.height as u128);
    match metric {
        ErrCalc::Mse => {
            let after: u128 = children.iter().map(|c| area(c) * c.error as u128).sum();
            assert!(after <= area(&parent) * parent.error as u128);
        }
        _ => {
            let after: u128 = children.iter().map(|c| c.error as u128).sum();
            assert!(after <= parent.error as u128);
        }
    }
    for child in children {
        check_split_keeps_error(img, child, metric);
    }
}

#[test]
fn split_keeps_square_error_on_gradient() {
    let img = chunk_test_gradient();
    check_split_keeps_error(&img, Chunk::from_img(&img, 0, 0, 8, 8, ErrCalc::Square), ErrCalc::Square);
}

#[test]
fn split_keeps_mean_square_error_on_gradient() {
    let img = chunk_test_gradient();
    check_split_keeps_error(&img, Chunk::from_img(&img, 0, 0, 8, 8, ErrCalc::Mse), ErrCalc::Mse);
}

#[test]
fn split_can_raise_square_error_where_a_mean_rounds_badly() {
    // The left half has mean 2 / 3, held as 0, though 1 would fit it better.
    let img = red_row(&[0, 1, 1, 1, 1, 2]);
    let parent = Chunk::from_img(&img, 0, 0, 6, 1, ErrCalc::Square);
    assert_eq!((parent.color.r, parent.error), (1, 2));
    let children = parent.split(&img, ErrCalc::Square);
    assert_eq!(rectangles(&children), vec![(0, 0, 3, 1), (3, 0, 3, 1)]);
    assert_eq!((children[0].color.r, children[0].error), (0, 2));
    assert_eq!((children[1].color.r, children[1].error), (1, 1));
}

#[test]
fn split_can_raise_mean_square_error_where_it_rounds_to_zero() {
    let img = red_row(&[1, 0, 2]);
    let parent = Chunk::from_img(&img, 0, 0, 3, 1, ErrCalc::Mse);
    // squared error 2 over 3 pixels
    assert_eq!((parent.color.r, parent.error), (1, 0));
    let children = parent.split(&img, ErrCalc::Mse);
    assert_eq!(rectangles(&children), vec![(0, 0, 1, 1), (1, 0, 2, 1)]);
    assert_eq!((children[0].color.r, children[0].error), (1, 0));
    // squared error 2 over 2 pixels
    assert_eq!((children[1].color.r, children[1].error), (1, 1));
}

/// What rounding its mean costs a chunk against the colour `c`, computed
/// from the samples: in each colour channel `e * (2 * r - n * e)`, where
/// the mean of the chunk is `e` below the sample of `c` and dropped a
/// remainder of `r` over `n` pixels.
fn rounding_cost(img: &Raster, chunk: &Chunk, c: Color) -> i64 {
    let n = (chunk.width * chunk.height) as i64;
    let mut totals = [0i64; 3];
    for y in chunk.y..chunk.y + chunk.height {
        for x in chunk.x..chunk.x + chunk.width {
            let p = img.get(x, y).unwrap();
            totals[0] += p.r as i64;
            totals[1] += p.g as i64;
            totals[2] += p.b as i64;
        }
    }
    let against = [c.r as i64, c.g as i64, c.b as i64];
    let mut cost = 0;
    for k in 0..3 {
        let e = against[k] - totals[k] / n;
        let r = totals[k] % n;
        cost += e * (2 * r - n * e);
    }
    cost
}

fn noisy_raster(width: u32, height: u32, seed: u64) -> Raster {
    let mut state = seed;
    let img = RgbaImage::from_fn(width, height, |_, _| {
        let mut sample = [0u8; 4];
        for s in sample.iter_mut() {
            state = state.wrapping_mul(6364136223846793005).wrapping_add(1442695040888963407);
            *s = ((state >> 33) % 8) as u8;
        }
        Rgba(sample)
    });
    Raster::from_image(DynamicImage::ImageRgba8(img)).unwrap()
}

#[test]
fn split_changes_square_error_by_the_rounding_cost() {
    for seed in 0..200u64 {
        let (width, height) = (1 + (seed % 6) as u32, 1 + (seed / 6 % 6) as u32);
        let img = noisy_raster(width, height, seed);
        let parent = Chunk::from_img(&img, 0, 0, width, height, ErrCalc::Square);
        let children = parent.split(&img, ErrCalc::Square);
        let after: i64 = children.iter().map(|c| c.error as i64).sum();
        let cost: i64 = children.iter().map(|c| rounding_cost(&img, c, parent.color)).sum();
        if children.is_empty() {
            assert_eq!(parent.error, 0);
        } else {
            assert_eq!(after, parent.error as i64 + cost);
        }
    }
    // a row on which the rounding costs one unit
    let img = red_row(&[0, 1, 1, 1, 1, 2]);
    let parent = Chunk::from_img(&img, 0, 0, 6, 1, ErrCalc::Square);
    let children = parent.split(&img, ErrCalc::Square);
    assert_eq!(rounding_cost(&img, &children[0], parent.color), 1);
    assert_eq!(rounding_cost(&img, &children[1], parent.color), 0);
    assert_eq!(children[0].error + children[1].error, parent.error + 1);
}

#[test]
fn split_changes_mean_square_error_by_rounding_and_division() {
    for seed in 0..200u64 {
        let (width, height) = (1 + (seed % 6) as u32, 1 + (seed / 6 % 6) as u32);
        let img = noisy_raster(width, height, seed + 1000);
        let parent = Chunk::from_img(&img, 0, 0, width, height, ErrCalc::Mse);
        let children = parent.split(&img, ErrCalc::Mse);
        if children.is_empty() {
            assert_eq!(parent.error, 0);
            continue;
        }
        // what the division by the number of pixels dropped
        let loss = |c: &Chunk| {
            let whole = Chunk::from_img(&img, c.x, c.y, c.width, c.height, ErrCalc::Square);
            let n = (c.width * c.height) as i64;
            whole.error as i64 - n * c.error as i64
        };
        let area = |c: &Chunk| (c.width * c.height) as i64;
        let after: i64 = children.iter().map(|c| area(c) * c.error as i64).sum();
        let cost: i64 = children.iter().map(|c| rounding_cost(&img, c, parent.color)).sum();
        let dropped: i64 = children.iter().map(loss).sum();
        assert_eq!(after, area(&parent) * parent.error as i64 + cost + loss(&parent) - dropped);
    }
}
