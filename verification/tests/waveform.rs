use colorogram::bignat::BigNat;
use colorogram::histogram::RenderError;
use colorogram::image::{Color, Dimensions, Image};
use colorogram::waveform::{make_waveform_graph, normalize};

#[test]
fn normalize_degenerate_cases_are_dark() {
    assert_eq!(normalize(0, 0), 0);
    assert_eq!(normalize(0, 1), 0);
    assert_eq!(normalize(1, 1), 0);
    assert_eq!(normalize(5, 1), 0);
    assert_eq!(normalize(5, 0), 0);
    assert_eq!(normalize(0, 7), 0);
    assert_eq!(normalize(0, u64::MAX), 0);
}

#[test]
fn normalize_is_scaled_logarithm_rounded_down() {
    assert_eq!(normalize(1, 2), 0);
    assert_eq!(normalize(1, 5), 0);
    assert_eq!(normalize(2, 4), 127);
    assert_eq!(normalize(3, 9), 127);
    assert_eq!(normalize(2, 8), 85);
    assert_eq!(normalize(8, 16), 191);
    assert_eq!(normalize(2, 3), 160);
    assert_eq!(normalize(3, 4), 202);
    assert_eq!(normalize(3, 7), 143);
    assert_eq!(normalize(1000, 1001), 254);
    assert_eq!(normalize(5, 1_000_003), 29);
}

#[test]
fn normalize_full_and_capped() {
    assert_eq!(normalize(2, 2), 255);
    assert_eq!(normalize(9, 9), 255);
    assert_eq!(normalize(u64::MAX, u64::MAX), 255);
    assert_eq!(normalize(7, 3), 255);
}

#[test]
fn normalize_large_counts() {
    assert_eq!(normalize(2, 1 << 63), 4);
    assert_eq!(normalize(1 << 63, u64::MAX), 251);
    assert_eq!(normalize(u64::MAX - 1, u64::MAX), 254);
}

#[test]
fn normalize_agrees_with_floating_logarithm() {
    for (v, m) in [(2u64, 5u64), (3, 10), (7, 50), (13, 200), (40, 41), (2, 1000)] {
        let want = ((v as f64).ln() / (m as f64).ln() * 255.0).floor() as u8;
        assert_eq!(normalize(v, m), want);
    }
}

#[test]
fn bignat_products_compare() {
    let one = BigNat::from_u64(1);
    let zero = BigNat::from_u64(0);
    assert!(zero.le(&one));
    assert!(!one.le(&zero));
    assert!(zero.le(&zero));
    let a = BigNat::from_u64(u64::MAX).mul_small(u64::MAX);
    let b = BigNat::from_u64(u64::MAX).mul_small(u64::MAX - 1);
    assert!(b.le(&a));
    assert!(!a.le(&b));
    assert!(a.le(&a));
    let c = BigNat::from_u64(1 << 32).mul_small(1 << 32);
    let d = BigNat::from_u64(u64::MAX);
    assert!(d.le(&c));
    assert!(!c.le(&d));
    let e = c.mul_small(3).mul_small(5);
    let f = BigNat::from_u64(15).mul_small(1 << 32).mul_small(1 << 32);
    assert!(e.le(&f));
    assert!(f.le(&e));
    assert!(a.mul_small(0).le(&zero));
    assert!(zero.mul_small(9).le(&zero));
    let g = BigNat::from_u64(6).mul_small(7);
    assert!(g.le(&BigNat::from_u64(42)));
    assert!(!g.le(&BigNat::from_u64(41)));
}

#[test]
fn waveform_of_uniform_column_has_single_bright_row() {
    let src = Image::from_buffer(&[0, 85, 170, 0, 85, 170, 0, 85, 170, 0, 85, 170], 1, 4);
    let scope = make_waveform_graph(&src, 3).unwrap();
    assert_eq!(scope.dimensions(), Dimensions::new(1, 3));
    assert_eq!(scope.pixel(0, 2), Color::new(255, 0, 0));
    assert_eq!(scope.pixel(0, 1), Color::new(0, 255, 0));
    assert_eq!(scope.pixel(0, 0), Color::new(0, 0, 255));
}

#[test]
fn waveform_bucket_between_rows_is_not_shown() {
    let src = Image::from_buffer(&[10, 10, 10, 10, 10, 10], 1, 2);
    let scope = make_waveform_graph(&src, 3).unwrap();
    assert_eq!(scope.as_bytes(), vec![0u8; 9]);
}

#[test]
fn waveform_uses_each_column_s_own_max() {
    let src = Image::from_buffer(
        &[
            0, 0, 0, 0, 0, 0, //
            0, 0, 0, 255, 0, 0, //
            0, 0, 0, 255, 0, 0, //
            255, 0, 0, 255, 0, 0,
        ],
        2,
        4,
    );
    let scope = make_waveform_graph(&src, 2).unwrap();
    assert_eq!(scope.dimensions(), Dimensions::new(2, 2));
    assert_eq!(scope.pixel(0, 1), Color::new(202, 255, 255));
    assert_eq!(scope.pixel(1, 1), Color::new(0, 255, 255));
    assert_eq!(scope.pixel(0, 0), Color::default());
    assert_eq!(scope.pixel(1, 0), Color::default());
    let scope = make_waveform_graph(&src, 512).unwrap();
    assert_eq!(scope.pixel(0, 0), Color::new(0, 0, 0));
    assert_eq!(scope.pixel(1, 0), Color::new(202, 0, 0));
    assert_eq!(scope.pixel(1, 511), Color::new(0, 255, 255));
}

#[test]
fn waveform_single_row_source_is_dark() {
    let src = Image::from_buffer(&[0, 0, 0, 9, 9, 9], 2, 1);
    let scope = make_waveform_graph(&src, 4).unwrap();
    assert_eq!(scope.as_bytes(), vec![0u8; 24]);
    let src = Image::create(3, 0);
    let scope = make_waveform_graph(&src, 2).unwrap();
    assert_eq!(scope.as_bytes(), vec![0u8; 18]);
}

#[test]
fn waveform_rejects_what_cannot_be_held() {
    let src = Image::create(2, 2);
    assert_eq!(make_waveform_graph(&src, usize::MAX).err(), Some(RenderError::InvalidDimensions));
    let most = isize::MAX as usize / 3;
    assert_eq!(make_waveform_graph(&src, most).err(), Some(RenderError::InvalidDimensions));
}

#[test]
fn waveform_with_a_zero_side_has_no_pixels() {
    let src = Image::from_buffer(&[9, 9, 9, 9, 9, 9, 1, 2, 3, 9, 9, 9], 2, 2);
    let scope = make_waveform_graph(&src, 0).unwrap();
    assert_eq!(scope.dimensions(), Dimensions::new(2, 0));
    assert!(scope.as_bytes().is_empty());
    let scope = make_waveform_graph(&Image::create(usize::MAX, 0), 0).unwrap();
    assert_eq!(scope.dimensions(), Dimensions::new(usize::MAX, 0));
    assert!(scope.as_bytes().is_empty());
    for (w, h) in [(0, 5), (0, 0)] {
        let empty = Image::create(w, h);
        for height in [0, 4, usize::MAX] {
            let scope = make_waveform_graph(&empty, height).unwrap();
            assert_eq!(scope.dimensions(), Dimensions::new(0, height));
            assert!(scope.as_bytes().is_empty());
        }
    }
}

#[test]
fn waveform_ignores_vertical_order_in_a_column() {
    let rows: Vec<[u8; 6]> = vec![
        [0, 0, 0, 7, 7, 7],
        [0, 128, 0, 7, 7, 7],
        [255, 128, 0, 1, 2, 3],
        [255, 128, 64, 7, 7, 7],
        [255, 0, 64, 9, 9, 9],
    ];
    let mut straight = Vec::new();
    for r in &rows {
        straight.extend_from_slice(r);
    }
    let mut turned = Vec::new();
    for i in [4usize, 2, 0, 3, 1] {
        turned.extend_from_slice(&rows[i]);
    }
    let a = make_waveform_graph(&Image::from_buffer(&straight, 2, 5), 3).unwrap();
    let b = make_waveform_graph(&Image::from_buffer(&turned, 2, 5), 3).unwrap();
    assert_eq!(a.as_bytes(), b.as_bytes());
    assert_eq!(a.pixel(0, 0), Color::default());
    assert_eq!(a.pixel(0, 1), Color::default());
    assert_eq!(a.pixel(0, 2), Color::new(160, 160, 255));
    assert_eq!(a.pixel(1, 2), Color::default());
}
