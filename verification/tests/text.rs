use docmill::bytes::split_bytes;
use docmill::engine::OcrFailure;
use docmill::local::{
    cache_salt, decode_image, decoded, fingerprint, image_size, recognised, to_bgr, worth_reading, Rgb,
};
use docmill::postprocess::defuse_fences;
use docmill::text;

#[test]
fn white_space_is_that_of_std() {
    for n in 0..=0x10_ffffu32 {
        if let Some(c) = char::from_u32(n) {
            assert_eq!(text::white(c), c.is_whitespace(), "{n:x}");
        }
    }
}

#[test]
fn trimming_and_lines_agree_with_std() {
    for s in ["", " ", "a", " a\u{3000}", "\u{85}x y\n", "a\r\nb\n\nc\r", "\n", "x\r"] {
        assert_eq!(text::trim_str(s), s.trim(), "{s:?}");
        let chars: Vec<char> = s.chars().collect();
        let lines: Vec<String> = text::lines_of(&chars).iter().map(|l| l.iter().collect()).collect();
        assert_eq!(lines, s.lines().map(str::to_string).collect::<Vec<_>>(), "{s:?}");
    }
}

#[test]
fn numbers_agree_with_std() {
    for s in ["", "0", "+7", "-1", "007", "4294967295", "4294967296", " 1", "1a", "+", "++1"] {
        let chars: Vec<char> = s.chars().collect();
        let got = text::unsigned_of(&chars, u64::from(u32::MAX));
        assert_eq!(got, s.parse::<u32>().ok().map(u64::from), "{s:?}");
    }
    assert_eq!(text::unsigned_of(&['1'], u64::MAX), Some(1));
    let shown: String = text::decimal_of(u64::MAX).iter().collect();
    assert_eq!(shown, u64::MAX.to_string());
}

#[test]
fn quoted_values_are_escaped() {
    assert_eq!(text::around_quoted("a ", "x\"\n", " b"), "a \"x\\\"\\n\" b");
}

#[test]
fn fences_are_defused() {
    assert_eq!(defuse_fences("a\n```\nb"), "a\n ```\nb");
    for body in ["```", "x\n  ```rust\r\ny\n\n```\nz", "plain\n\n", "a ``` b\nc\n"] {
        let safe = defuse_fences(body);
        assert_eq!(safe.lines().count(), body.lines().count());
        for (now, was) in safe.lines().zip(body.lines()) {
            assert!(now == was || now == format!(" {was}"), "{now:?}");
        }
    }
}

#[test]
fn split_bytes_join_again() {
    for (s, sep) in [("a--b----c", "--"), ("--", "--"), ("", "x"), ("aaa", "aa"), ("no", "--")] {
        let pieces = split_bytes(s.as_bytes(), sep.as_bytes());
        assert_eq!(pieces.join(sep.as_bytes()), s.as_bytes());
    }
    assert_eq!(split_bytes(b"aaa", b"aa"), [&b""[..], b"a"]);
}

#[test]
fn images_are_decoded_to_pixels() {
    let mut png = std::io::Cursor::new(Vec::new());
    image::RgbImage::from_pixel(2, 1, image::Rgb([10, 20, 30]))
        .write_to(&mut png, image::ImageFormat::Png)
        .unwrap();
    let file = png.into_inner();
    assert_eq!(image_size(&file), (2, 1));
    let pixels = decode_image(&file).unwrap();
    assert_eq!((pixels.width, pixels.height), (2, 1));
    assert_eq!(pixels.data, [10, 20, 30, 10, 20, 30]);
    let mut data = pixels.data;
    to_bgr(&mut data);
    assert_eq!(data, [30, 20, 10, 30, 20, 10]);
    to_bgr(&mut data);
    assert_eq!(data, [10, 20, 30, 10, 20, 30]);
    match decode_image(b"no image") {
        Err(OcrFailure::Image(e)) => assert!(e.starts_with("decode image: "), "{e}"),
        other => panic!("{other:?}"),
    }
    assert_eq!(image_size(b"no image"), (0, 0));
}

#[test]
fn undecodable_images_are_left_to_other_engines() {
    let pixels = Rgb { width: 1, height: 1, data: vec![1, 2, 3] };
    assert_eq!(decoded(Ok(pixels)).unwrap().data, [1, 2, 3]);
    match decoded(Err("bad header".to_string())) {
        Err(OcrFailure::Image(e)) => assert_eq!(e, "decode image: bad header"),
        other => panic!("{other:?}"),
    }
}

#[test]
fn recognised_lines_are_those_with_text() {
    let texts = vec!["a".to_string(), " ".to_string(), "b".to_string()];
    assert_eq!(recognised(&texts), ("a\nb".to_string(), vec![0, 2]));
    assert!(worth_reading(0, 0, 3, 3));
    assert!(!worth_reading(0, 0, 2, 9));
}

#[test]
fn model_files_are_known_by_their_content() {
    let a = fingerprint(b"model", None);
    assert_eq!(a, fingerprint(b"model", None));
    assert_ne!(a, fingerprint(b"model", Some(b"weights")));
    assert_ne!(a, fingerprint(b"modem", None));
    let salt = |det: Option<&[u8]>, rec: &[u8], dict: &[u8]| {
        let det = det.map(|d| fingerprint(d, None));
        cache_salt("en", det.as_deref(), &fingerprint(rec, Some(b"w")), &fingerprint(dict, None))
    };
    let all = [
        salt(Some(b"d"), b"r", b"c"),
        salt(Some(b"e"), b"r", b"c"),
        salt(Some(b"d"), b"s", b"c"),
        salt(Some(b"d"), b"r", b"k"),
        salt(None, b"r", b"c"),
        salt(None, b"s", b"c"),
        salt(None, b"r", b"k"),
    ];
    for (i, one) in all.iter().enumerate() {
        assert!(all[..i].iter().all(|other| other != one));
    }
}
