use usls::mask::{binarize, crop_mask, resize_mask, Interpolation};
use usls::scale::Window;

#[test]
fn binarize_is_strict_about_the_threshold() {
    let mask = binarize(&[0, 199_999, 200_000, 200_001, 1_000_000], 200_000);
    assert_eq!(mask, vec![0, 0, 0, 255, 255]);
    assert!(binarize(&[], 200_000).is_empty());
}

#[test]
fn nearest_takes_the_closest_source_pixel() {
    let out = resize_mask(&vec![0, 255], 2, 1, 4, 1, Interpolation::Nearest).unwrap();
    assert_eq!(out, vec![0, 0, 255, 255]);
    let out = resize_mask(&vec![1, 2, 3, 4], 2, 2, 4, 4, Interpolation::Nearest).unwrap();
    assert_eq!(out, vec![1, 1, 2, 2, 1, 1, 2, 2, 3, 3, 4, 4, 3, 3, 4, 4]);
    let out = resize_mask(&vec![1, 2, 3, 4, 5, 6, 7, 8, 9], 3, 3, 1, 1, Interpolation::Nearest).unwrap();
    assert_eq!(out, vec![5]);
}

#[test]
fn bilinear_blends_neighbouring_pixels() {
    let out = resize_mask(&vec![0, 255], 2, 1, 4, 1, Interpolation::Bilinear).unwrap();
    assert_eq!(out, vec![0, 63, 191, 255]);
    let out = resize_mask(&vec![0, 255], 1, 2, 1, 4, Interpolation::Bilinear).unwrap();
    assert_eq!(out, vec![0, 63, 191, 255]);
    let out = resize_mask(&vec![0, 100, 200, 40], 2, 2, 4, 4, Interpolation::Bilinear).unwrap();
    assert_eq!(out[0], 0);
    assert_eq!(out[3], 100);
    assert_eq!(out[12], 200);
    assert_eq!(out[15], 40);
    assert_eq!(out[5] as u32, (0 * 36 + 100 * 12 + 200 * 12 + 40 * 4) / 64);
    assert_eq!(out[5], 58);
}

#[test]
fn resizing_to_the_same_size_changes_nothing() {
    let src = vec![0, 255, 255, 0, 7, 9];
    assert_eq!(resize_mask(&src, 3, 2, 3, 2, Interpolation::Bilinear).unwrap(), src);
    assert_eq!(resize_mask(&src, 3, 2, 3, 2, Interpolation::Nearest).unwrap(), src);
}

#[test]
fn blank_mask_stays_blank() {
    let out = resize_mask(&vec![0; 6], 3, 2, 7, 5, Interpolation::Bilinear).unwrap();
    assert_eq!(out, vec![0; 35]);
}

#[test]
fn resize_rejects_bad_shapes() {
    assert!(resize_mask(&vec![0; 5], 3, 2, 4, 4, Interpolation::Bilinear).is_none());
    assert!(resize_mask(&vec![0; 7], 3, 2, 4, 4, Interpolation::Bilinear).is_none());
    assert!(resize_mask(&vec![], 0, 2, 4, 4, Interpolation::Nearest).is_none());
    assert!(resize_mask(&vec![0; 6], 3, 2, 0, 4, Interpolation::Nearest).is_none());
    assert!(resize_mask(&vec![0; 6], 3, 2, 4, 32_769, Interpolation::Nearest).is_none());
    assert_eq!(resize_mask(&vec![9], 1, 1, 32_768, 1, Interpolation::Nearest).unwrap().len(), 32_768);
}

#[test]
fn crop_takes_the_window_row_by_row() {
    let src: Vec<u8> = (0..12).collect();
    let win = |x, y, width, height| Window { x, y, width, height };
    assert_eq!(crop_mask(&src, 4, 3, win(1, 1, 2, 2)), Some(vec![5, 6, 9, 10]));
    assert_eq!(crop_mask(&src, 4, 3, win(0, 0, 4, 3)), Some(src.clone()));
    assert_eq!(crop_mask(&src, 4, 3, win(3, 2, 1, 1)), Some(vec![11]));
    assert_eq!(crop_mask(&src, 4, 3, win(3, 0, 2, 1)), None);
    assert_eq!(crop_mask(&src, 4, 3, win(0, 2, 1, 2)), None);
    assert_eq!(crop_mask(&src, 4, 3, win(0, 0, 0, 1)), None);
    assert_eq!(crop_mask(&src, 4, 3, win(5, 0, 1, 1)), None);
    assert_eq!(crop_mask(&src, 3, 3, win(0, 0, 1, 1)), None);
    assert_eq!(crop_mask(&src, 0, 3, win(0, 0, 1, 1)), None);
    assert_eq!(crop_mask(&src, 4, 3, win(u32::MAX, 0, u32::MAX, 1)), None);
}
