use panorama_tiler::{RgbBuffer, is_region_empty};

fn gradient(w: u32, h: u32) -> RgbBuffer {
    let mut data = Vec::new();
    for y in 0..h {
        for x in 0..w {
            data.extend_from_slice(&[x as u8, y as u8, 7]);
        }
    }
    RgbBuffer::from_raw(w, h, data).unwrap()
}

#[test]
fn from_raw_checks_length() {
    assert!(RgbBuffer::from_raw(2, 2, vec![0; 12]).is_some());
    assert!(RgbBuffer::from_raw(2, 2, vec![0; 11]).is_none());
    assert!(RgbBuffer::from_raw(0, 5, vec![]).is_some());
}

#[test]
fn crop_takes_window() {
    let img = gradient(4, 3);
    let c = img.crop(1, 1, 2, 2);
    assert_eq!((c.width, c.height), (2, 2));
    assert_eq!(c.data, vec![1, 1, 7, 2, 1, 7, 1, 2, 7, 2, 2, 7]);
    let empty = img.crop(4, 3, 0, 0);
    assert!(empty.data.is_empty());
}

#[test]
fn region_empty_detection() {
    let mut img = RgbBuffer::from_raw(3, 3, vec![9; 27]).unwrap();
    assert!(is_region_empty(&img, 0, 0, 3, 3, [9, 9, 9]));
    img.data[(2 * 3 + 1) * 3 + 2] = 0;
    assert!(!is_region_empty(&img, 0, 0, 3, 3, [9, 9, 9]));
    assert!(is_region_empty(&img, 0, 0, 3, 2, [9, 9, 9]));
    assert!(is_region_empty(&img, 2, 0, 1, 3, [9, 9, 9]));
    assert!(!is_region_empty(&img, 1, 2, 1, 1, [9, 9, 9]));
    assert!(is_region_empty(&img, 1, 1, 0, 0, [1, 2, 3]));
}

#[test]
fn resized_has_destination_size() {
    let img = gradient(4, 4);
    let small = img.resized(2, 2);
    assert_eq!((small.width, small.height), (2, 2));
    assert_eq!(small.data.len(), 12);
    let same = img.resized(4, 4);
    assert_eq!(same.data, img.data);
    let flat = RgbBuffer::from_raw(4, 4, vec![50; 48]).unwrap().resized(2, 2);
    assert_eq!(flat.data, vec![50; 12]);
}
