use colorogram::compositor::{can_stack, composite};
use colorogram::histogram::{generate_histogram_image, make_histogram, RenderError};
use colorogram::image::{Color, Dimensions, Image};

fn red_rows(img: &Image, x: usize) -> Vec<bool> {
    (0..img.dimensions().height).map(|y| img.pixel(x, y).r == 255).collect()
}

fn bar(img: &Image, x: usize, channel: usize) -> usize {
    let h = img.dimensions().height;
    let lit: Vec<bool> = (0..h).map(|y| img.pixel(x, y).channels()[channel] == 255).collect();
    let n = lit.iter().filter(|b| **b).count();
    for y in 0..h {
        assert_eq!(lit[y], y >= h - n);
        let v = img.pixel(x, y).channels()[channel];
        assert!(v == 0 || v == 255);
    }
    n
}

#[test]
fn histogram_with_zero_max_is_black() {
    let mut reds = [0u64; 256];
    reds[3] = 7;
    let zero = [0u64; 256];
    for (w, h) in [(1, 1), (256, 10), (300, 3), (17, 5)] {
        let img = generate_histogram_image(0, &reds, &zero, &zero, w, h).unwrap();
        assert_eq!(img.dimensions(), Dimensions::new(w, h));
        assert_eq!(img.as_bytes(), vec![0u8; 3 * w * h]);
    }
}

#[test]
fn histogram_of_empty_counts_is_black() {
    let zero = [0u64; 256];
    let img = generate_histogram_image(5, &zero, &zero, &zero, 20, 4).unwrap();
    assert_eq!(img.as_bytes(), vec![0u8; 3 * 20 * 4]);
}

#[test]
fn histogram_bar_at_full_count_fills_column() {
    let mut reds = [0u64; 256];
    reds[1] = 50;
    let zero = [0u64; 256];
    let img = generate_histogram_image(50, &reds, &zero, &zero, 256, 100).unwrap();
    assert_eq!(img.dimensions(), Dimensions::new(256, 100));
    assert_eq!(bar(&img, 0, 0), 0);
    assert_eq!(bar(&img, 1, 0), 100);
    assert_eq!(bar(&img, 2, 0), 1);
    assert_eq!(bar(&img, 3, 0), 0);
    for x in 0..256 {
        assert_eq!(bar(&img, x, 1), 0);
        assert_eq!(bar(&img, x, 2), 0);
    }
}

#[test]
fn histogram_bar_at_half_count_fills_bottom_half() {
    let mut reds = [0u64; 256];
    reds[1] = 50;
    let zero = [0u64; 256];
    let img = generate_histogram_image(100, &reds, &zero, &zero, 256, 100).unwrap();
    let rows = red_rows(&img, 1);
    for y in 0..100 {
        assert_eq!(rows[y], y >= 50);
        assert_eq!(img.pixel(1, y), if y >= 50 { Color::new(255, 0, 0) } else { Color::default() });
    }
    assert_eq!(bar(&img, 0, 0), 0);
    assert_eq!(bar(&img, 2, 0), 0);
}

#[test]
fn histogram_interpolates_between_buckets() {
    let mut reds = [0u64; 256];
    reds[0] = 4;
    reds[1] = 8;
    reds[254] = 2;
    reds[255] = 6;
    let zero = [0u64; 256];
    let img = generate_histogram_image(8, &reds, &zero, &zero, 512, 10).unwrap();
    let got: Vec<usize> = (0..6).map(|x| bar(&img, x, 0)).collect();
    assert_eq!(got, vec![5, 7, 10, 5, 0, 0]);
    let img = generate_histogram_image(8, &reds, &zero, &zero, 510, 7).unwrap();
    let got: Vec<usize> = (0..6).map(|x| bar(&img, x, 0)).collect();
    assert_eq!(got, vec![4, 5, 7, 4, 0, 0]);
    let got: Vec<usize> = (505..510).map(|x| bar(&img, x, 0)).collect();
    assert_eq!(got, vec![0, 0, 1, 2, 4]);
    let img = generate_histogram_image(8, &reds, &zero, &zero, 4, 10).unwrap();
    let got: Vec<usize> = (0..4).map(|x| bar(&img, x, 0)).collect();
    assert_eq!(got, vec![5, 0, 0, 0]);
}

#[test]
fn histogram_count_above_max_fills_the_column() {
    let mut reds = [0u64; 256];
    reds[0] = 4;
    reds[1] = 8;
    let zero = [0u64; 256];
    let img = generate_histogram_image(2, &reds, &zero, &zero, 510, 7).unwrap();
    assert_eq!(bar(&img, 0, 0), 7);
    assert_eq!(bar(&img, 1, 0), 7);
    assert_eq!(bar(&img, 4, 0), 0);
    let mut huge = [0u64; 256];
    huge[0] = u64::MAX;
    huge[1] = u64::MAX;
    let img = generate_histogram_image(1, &huge, &zero, &zero, 255, 3).unwrap();
    assert_eq!(bar(&img, 0, 0), 3);
    assert_eq!(bar(&img, 1, 0), 3);
    let img = generate_histogram_image(u64::MAX, &huge, &zero, &zero, 255, 3).unwrap();
    assert_eq!(bar(&img, 0, 0), 3);
    assert_eq!(bar(&img, 1, 0), 3);
    assert_eq!(bar(&img, 2, 0), 0);
}

#[test]
fn histogram_channels_overlap_to_composite_colors() {
    let mut reds = [0u64; 256];
    let mut greens = [0u64; 256];
    let mut blues = [0u64; 256];
    reds[0] = 4;
    greens[0] = 2;
    blues[0] = 1;
    let img = generate_histogram_image(4, &reds, &greens, &blues, 255, 4).unwrap();
    assert_eq!(img.pixel(0, 0), Color::new(255, 0, 0));
    assert_eq!(img.pixel(0, 1), Color::new(255, 0, 0));
    assert_eq!(img.pixel(0, 2), Color::new(255, 255, 0));
    assert_eq!(img.pixel(0, 3), Color::new(255, 255, 255));
    assert_eq!(img.pixel(1, 3), Color::default());
}

#[test]
fn histogram_rejects_what_cannot_be_held() {
    let zero = [0u64; 256];
    let most = isize::MAX as usize / 3;
    for (w, h) in [(usize::MAX, 2), (2, usize::MAX), (most + 1, 1), (usize::MAX, usize::MAX)] {
        let out = generate_histogram_image(1, &zero, &zero, &zero, w, h);
        assert_eq!(out.err(), Some(RenderError::InvalidDimensions));
        let out = generate_histogram_image(0, &zero, &zero, &zero, w, h);
        assert_eq!(out.err(), Some(RenderError::InvalidDimensions));
    }
}

#[test]
fn histogram_with_a_zero_side_has_no_pixels() {
    let zero = [0u64; 256];
    let mut reds = [0u64; 256];
    reds[0] = 5;
    reds[1] = 3;
    for (w, h) in [(0, 0), (0, 10), (10, 0), (8, 0), (0, usize::MAX), (usize::MAX, 0)] {
        for max in [0, 5] {
            let img = generate_histogram_image(max, &reds, &zero, &zero, w, h).unwrap();
            assert_eq!(img.dimensions(), Dimensions::new(w, h));
            assert!(img.as_bytes().is_empty());
        }
    }
}

#[test]
fn histogram_one_pixel_high_or_wide() {
    let zero = [0u64; 256];
    let mut reds = [0u64; 256];
    reds[0] = 5;
    let img = generate_histogram_image(5, &reds, &zero, &zero, 1, 1).unwrap();
    assert_eq!(img.as_bytes(), vec![255, 0, 0]);
    let img = generate_histogram_image(5, &reds, &zero, &zero, 1, 3).unwrap();
    assert_eq!(img.as_bytes(), vec![255, 0, 0, 255, 0, 0, 255, 0, 0]);
    let img = generate_histogram_image(10, &reds, &zero, &zero, 255, 1).unwrap();
    assert_eq!(bar(&img, 0, 0), 1);
    assert_eq!(bar(&img, 1, 0), 0);
    let img = generate_histogram_image(11, &reds, &zero, &zero, 255, 1).unwrap();
    assert_eq!(bar(&img, 0, 0), 0);
}

#[test]
fn make_histogram_uses_the_global_max() {
    let img = Image::from_buffer(&[0, 0, 0, 0, 0, 255, 0, 255, 255, 255, 255, 255], 2, 2);
    let chart = make_histogram(&img, 255, 4).unwrap();
    assert_eq!(chart.dimensions(), Dimensions::new(255, 4));
    assert_eq!(bar(&chart, 0, 0), 4);
    assert_eq!(bar(&chart, 0, 1), 3);
    assert_eq!(bar(&chart, 0, 2), 1);
    assert_eq!(bar(&chart, 254, 0), 0);
    assert_eq!(bar(&chart, 254, 1), 0);
    assert_eq!(bar(&chart, 254, 2), 0);
    assert_eq!(bar(&chart, 100, 0), 0);
}

#[test]
fn make_histogram_of_empty_image_is_black() {
    let chart = make_histogram(&Image::create(0, 0), 8, 2).unwrap();
    assert_eq!(chart.as_bytes(), vec![0u8; 48]);
}

#[test]
fn make_histogram_with_a_zero_side_has_no_pixels() {
    let img = Image::from_buffer(&[1, 2, 3, 4, 5, 6, 7, 8, 9, 10, 11, 12], 2, 2);
    for (w, h) in [(0, 4), (4, 0), (0, 0)] {
        let chart = make_histogram(&img, w, h).unwrap();
        assert_eq!(chart.dimensions(), Dimensions::new(w, h));
        assert!(chart.as_bytes().is_empty());
    }
}

#[test]
fn make_histogram_rejects_what_cannot_be_held() {
    let img = Image::create(2, 2);
    assert_eq!(make_histogram(&img, usize::MAX, 4).err(), Some(RenderError::InvalidDimensions));
    assert_eq!(make_histogram(&img, 4, usize::MAX).err(), Some(RenderError::InvalidDimensions));
}

#[test]
fn low_image_keeps_its_pixels_under_an_empty_histogram() {
    let bytes = vec![1, 2, 3, 4, 5, 6, 7, 8, 9, 10, 11, 12, 13, 14, 15, 16, 17, 18];
    let image = Image::from_buffer(&bytes, 2, 3);
    let dims = image.dimensions();
    let chart = make_histogram(&image, dims.width, dims.height / 4).unwrap();
    assert_eq!(chart.dimensions(), Dimensions::new(2, 0));
    assert!(can_stack(&image, &chart));
    let out = composite(image, &chart);
    assert_eq!(out.dimensions(), Dimensions::new(2, 3));
    assert_eq!(out.as_bytes(), bytes);
}
