use colorogram::counter::{count_whole_image, peak};

#[test]
fn count_two_equal_pixels() {
    let (max, reds, greens, blues) = count_whole_image(&[10, 20, 30, 10, 20, 30]);
    for v in 0..256 {
        assert_eq!(reds[v], if v == 10 { 2 } else { 0 });
        assert_eq!(greens[v], if v == 20 { 2 } else { 0 });
        assert_eq!(blues[v], if v == 30 { 2 } else { 0 });
    }
    assert_eq!(max, 2);
    assert_eq!(max as f64, 2.0);
}

#[test]
fn count_empty_buffer_is_all_zero() {
    let (max, reds, greens, blues) = count_whole_image(&[]);
    assert_eq!(max, 0);
    assert_eq!(reds, [0u64; 256]);
    assert_eq!(greens, [0u64; 256]);
    assert_eq!(blues, [0u64; 256]);
}

#[test]
fn count_goes_by_position_modulo_three() {
    let (max, reds, greens, blues) = count_whole_image(&[5, 5, 5, 5, 0, 255, 5, 255, 255]);
    assert_eq!(reds[5], 3);
    assert_eq!(greens[5], 1);
    assert_eq!(greens[0], 1);
    assert_eq!(greens[255], 1);
    assert_eq!(blues[5], 1);
    assert_eq!(blues[255], 2);
    assert_eq!(max, 3);
}

#[test]
fn count_every_byte_once() {
    let mut data = Vec::new();
    for i in 0..300u32 {
        data.push((i * 7 % 256) as u8);
    }
    let (_, reds, greens, blues) = count_whole_image(&data);
    let r: u64 = reds.iter().sum();
    let g: u64 = greens.iter().sum();
    let b: u64 = blues.iter().sum();
    assert_eq!(r, 100);
    assert_eq!(g, 100);
    assert_eq!(b, 100);
    assert_eq!(r + g + b, data.len() as u64);
}

#[test]
fn count_buffer_with_a_partial_pixel() {
    let (max, reds, greens, blues) = count_whole_image(&[1, 2, 3, 1, 2]);
    assert_eq!(reds[1], 2);
    assert_eq!(greens[2], 2);
    assert_eq!(blues[3], 1);
    let all: u64 = reds.iter().chain(greens.iter()).chain(blues.iter()).sum();
    assert_eq!(all, 5);
    assert_eq!(max, 2);
}

#[test]
fn count_max_is_largest_bucket() {
    let mut data = Vec::new();
    for i in 0..90u32 {
        data.push(if i % 3 == 1 && i < 60 { 200 } else { (i % 50) as u8 });
    }
    let (max, reds, greens, blues) = count_whole_image(&data);
    let want = reds.iter().chain(greens.iter()).chain(blues.iter()).copied().max().unwrap();
    assert_eq!(max, want);
    assert_eq!(max, 20);
    assert_eq!(greens[200], 20);
}

#[test]
fn peak_of_three_histograms() {
    let zero = [0u64; 256];
    assert_eq!(peak(&zero, &zero, &zero), 0);
    let mut reds = [0u64; 256];
    let mut greens = [0u64; 256];
    let mut blues = [0u64; 256];
    reds[0] = 3;
    greens[255] = 9;
    blues[17] = 4;
    assert_eq!(peak(&reds, &greens, &blues), 9);
    blues[17] = u64::MAX;
    assert_eq!(peak(&reds, &greens, &blues), u64::MAX);
}

#[test]
fn count_ignores_pixel_order() {
    let pixels: Vec<[u8; 3]> =
        vec![[1, 2, 3], [4, 5, 6], [1, 5, 3], [9, 9, 9], [4, 2, 6], [0, 0, 255]];
    let order = [3usize, 0, 5, 2, 4, 1];
    let mut straight = Vec::new();
    for p in &pixels {
        straight.extend_from_slice(p);
    }
    let mut shuffled = Vec::new();
    for i in order {
        shuffled.extend_from_slice(&pixels[i]);
    }
    assert_ne!(straight, shuffled);
    assert_eq!(count_whole_image(&straight), count_whole_image(&shuffled));
}
