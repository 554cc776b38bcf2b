use sg_wasm::raster::{lead_background, paint_span};

#[test]
fn background_is_lead() {
    assert_eq!(lead_background(2, 1), vec![28, 28, 32, 255, 28, 28, 32, 255]);
    assert!(lead_background(0, 7).is_empty());
}

#[test]
fn paint_span_sets_row_pixels() {
    let mut buf = vec![0u8; 3 * 2 * 4];
    paint_span(&mut buf, 3, 1, 0, 1, [1, 2, 3]);
    let mut expected = vec![0u8; 24];
    expected[12..20].copy_from_slice(&[1, 2, 3, 255, 1, 2, 3, 255]);
    assert_eq!(buf, expected);
}

#[test]
fn paint_span_empty_range() {
    let mut buf = vec![7u8; 8];
    paint_span(&mut buf, 2, 0, 1, 0, [1, 2, 3]);
    assert_eq!(buf, vec![7u8; 8]);
    paint_span(&mut buf, 2, 0, 0, -1, [1, 2, 3]);
    assert_eq!(buf, vec![7u8; 8]);
}
