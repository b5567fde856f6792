use docmill::local::{to_bgr, Rgb};
use docmill::pixels::{crop, detector_bytes, is_scalable, line_pixels, planes_of, with_dark_ink};
use docmill::recognition::{class_table, put_texts, runs, RUN_LINES};

#[test]
fn dictionaries_become_class_tables() {
    assert_eq!(class_table("a\nb\r\n\n c\n"), ["", "a", "b", "", " c", " "]);
    assert_eq!(class_table("é\n中"), ["", "é", "中", " "]);
    assert_eq!(class_table("a\r"), ["", "a\r", " "]);
    assert_eq!(class_table(""), ["", " "]);
}

#[test]
fn lines_run_by_width() {
    assert!(runs(&Vec::new()).is_empty());
    assert_eq!(
        runs(&vec![9, 3, 9, 5, 3]),
        vec![(3, vec![1, 4]), (5, vec![3]), (9, vec![0, 2])]
    );
    let many = runs(&vec![7; 2 * RUN_LINES + 1]);
    let sizes: Vec<usize> = many.iter().map(|(_, at)| at.len()).collect();
    assert_eq!(sizes, [RUN_LINES, RUN_LINES, 1]);
    assert_eq!(many[1].1[0], RUN_LINES);
    assert_eq!(many[2], (7, vec![2 * RUN_LINES]));
}

#[test]
fn every_line_gets_its_text() {
    let widths: Vec<usize> = (0..50).map(|i| i * 7 % 5).collect();
    let mut texts = vec![String::new(); widths.len()];
    for (w, at) in runs(&widths) {
        let read: Vec<String> = at.iter().map(|i| format!("line {i} of width {w}")).collect();
        put_texts(&mut texts, &at, &read);
    }
    for (i, text) in texts.iter().enumerate() {
        assert_eq!(*text, format!("line {i} of width {}", widths[i]));
    }
}

fn picture(width: u32, height: u32) -> Rgb {
    Rgb { width, height, data: (0..3 * width * height).map(|i| (i * 37 % 251) as u8).collect() }
}

#[test]
fn crops_agree_with_the_image_crate() {
    let img = picture(7, 5);
    let whole = image::RgbImage::from_raw(7, 5, img.data.clone()).unwrap();
    for (x0, y0, x1, y1) in [(0, 0, 7, 5), (2, 1, 5, 4), (6, 4, 7, 5), (0, 2, 7, 3)] {
        let want = image::imageops::crop_imm(&whole, x0, y0, x1 - x0, y1 - y0).to_image();
        let got = crop(&img, x0, y0, x1, y1);
        assert_eq!((got.width, got.height), want.dimensions());
        assert_eq!(&got.data, want.as_raw());
        let mut swapped = want.into_raw();
        to_bgr(&mut swapped);
        assert_eq!(line_pixels(&img, x0, y0, x1, y1).data, swapped);
    }
}

#[test]
fn dark_images_are_inverted() {
    let dark = Rgb { width: 2, height: 1, data: vec![0, 10, 20, 255, 0, 0] };
    let out = with_dark_ink(dark);
    assert_eq!((out.width, out.height), (2, 1));
    assert_eq!(out.data, [255, 245, 235, 0, 255, 255]);
    assert_eq!(with_dark_ink(out).data, [255, 245, 235, 0, 255, 255]);
    let none = with_dark_ink(Rgb { width: 0, height: 3, data: Vec::new() });
    assert_eq!((none.width, none.height), (0, 3));
}

#[test]
fn detectors_read_scaled_planes() {
    let img = picture(2, 1);
    let d = img.data.clone();
    let want = [d[2], d[5], d[1], d[4], d[0], d[3]];
    assert_eq!(planes_of(&img), want);
    assert_eq!(detector_bytes(&img, 2, 1), want);
    let img = picture(9, 6);
    let whole = image::RgbImage::from_raw(9, 6, img.data.clone()).unwrap();
    let filter = image::imageops::FilterType::Triangle;
    let small = image::imageops::resize(&whole, 4, 8, filter);
    let read = detector_bytes(&img, 4, 8);
    assert_eq!(read.len(), 3 * 4 * 8);
    for (i, pixel) in small.pixels().enumerate() {
        assert_eq!([read[64 + i], read[32 + i], read[i]], pixel.0);
    }
    let white = Rgb { width: 1920, height: 1080, data: vec![255; 3 * 1920 * 1080] };
    assert!(detector_bytes(&white, 960, 544).iter().all(|byte| *byte == 255));
}

#[test]
fn images_scale_to_bounded_sides() {
    assert!(is_scalable(4_000_000_000, 960, 960));
    assert!(is_scalable(0, 32, 32));
    assert!(!is_scalable(10, 0, 32) && !is_scalable(10, 32, 0));
    assert!(!is_scalable(10, 0x1_0000, 32) && !is_scalable(10, 32, 0x1_0000));
}
