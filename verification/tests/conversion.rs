use docmill::conversion::{
    normalize_ocr_lang, parse_ocr_mode, ConversionOptions, Route, WarmPipeline, Word,
};
use docmill::converted::one_picture_document;
use docmill::input::InputFormat;

fn parse_ocr_scale(value: &str) -> Result<f32, String> {
    let number = value.parse::<f32>().ok().map(f32::to_bits);
    docmill::conversion::parse_ocr_scale(value, number).map(f32::from_bits)
}

fn word(text: &str) -> Word {
    Word {
        text: text.to_string(),
        scale: text.parse::<f32>().ok().map(f32::to_bits),
    }
}

#[test]
fn language_aliases_and_numeric_controls_are_validated() {
    for (tag, expected) in [
        ("en-US", "en"),
        ("iso:eng", "en"),
        ("zh-Hant", "ch"),
        ("chinese_cht", "ch"),
        ("ch_sim", "ch"),
    ] {
        assert_eq!(normalize_ocr_lang(tag).unwrap(), expected);
    }
    assert!(normalize_ocr_lang("sr").is_err());
    for scale in ["0", "-1", "NaN", "inf", "large"] {
        assert!(parse_ocr_scale(scale).is_err());
    }
    assert_eq!(parse_ocr_scale("3").unwrap(), 3.0);
    assert!(parse_ocr_mode("typo").is_err());
}

#[test]
fn scales_are_the_finite_positive_numbers() {
    for bits in [0u32, 1, 0x7f7f_ffff, 0x7f80_0000, 0x7f80_0001, 0x8000_0000, 0x8000_0001, u32::MAX]
    {
        let x = f32::from_bits(bits);
        let got = docmill::conversion::parse_ocr_scale("x", Some(bits));
        assert_eq!(got.is_ok(), x.is_finite() && x > 0.0, "{x}");
    }
    assert_eq!(
        parse_ocr_scale("-1").unwrap_err(),
        "OCR scale \"-1\" must be finite and positive"
    );
}

#[test]
fn modes_and_languages_are_normalised() {
    assert_eq!(parse_ocr_mode(" Full_Page ").unwrap(), "full_page");
    assert_eq!(
        parse_ocr_mode("Typo").unwrap_err(),
        "unknown OCR mode \"Typo\"; expected default|full_page|layout_regions|pdf_aware_layout_regions"
    );
    assert_eq!(normalize_ocr_lang(" ISO: ZH_tw ").unwrap(), "ch");
    assert_eq!(
        normalize_ocr_lang("DE-at").unwrap_err(),
        "unsupported page OCR language \"de-at\"; expected an English or Chinese language tag"
    );
}

#[test]
fn flags_take_their_values() {
    let mut opts = ConversionOptions::default();
    assert_eq!(opts.parse_flag("--skip-ocr", Some(&word("x"))), Ok(false));
    assert_eq!(opts.parse_flag("--ocr-scale", Some(&word("2"))), Ok(true));
    assert_eq!(opts.parse_flag("--encoding", Some(&word("latin1"))), Ok(true));
    assert!(opts.skip_ocr);
    assert_eq!(opts.ocr_scale, Some(2f32.to_bits()));
    assert_eq!(opts.encoding.as_deref(), Some("latin1"));
    assert_eq!(
        opts.parse_flag("--ocr-mode", None),
        Err("--ocr-mode needs a value".to_string())
    );
    assert_eq!(
        opts.parse_flag("--odd", None),
        Err("unknown conversion option --odd".to_string())
    );
}

#[test]
fn documents_are_finished_with_the_settings() {
    let opts = ConversionOptions {
        strict: true,
        page_break_placeholder: Some("PAGE".to_string()),
        ..Default::default()
    };
    let mut doc = one_picture_document("a.png", vec![1, 2, 3], false);
    opts.finish_document(&mut doc);
    assert!(doc.strict_markdown);
    assert_eq!(doc.page_break_placeholder.as_deref(), Some("PAGE"));
    ConversionOptions::default().finish_document(&mut doc);
    assert!(!doc.strict_markdown);
    assert_eq!(doc.page_break_placeholder, None);
}

#[test]
fn pipelines_are_rebuilt_for_another_key_only() {
    let mut warm = WarmPipeline::default();
    let custom = ConversionOptions {
        no_ocr: true,
        pages: Some((1, 1)),
        ocr_lang: Some("ch".to_string()),
        ..Default::default()
    };
    match warm.convert(InputFormat::Pdf, &custom) {
        Route::Pipeline { build, key, settings } => {
            assert!(build);
            assert!(key.no_ocr);
            assert_eq!(settings.pages, Some((1, 1)));
            warm.built(key);
        }
        other => panic!("{other:?}"),
    }
    let same_key = ConversionOptions { no_ocr: true, ..Default::default() };
    match warm.convert(InputFormat::Image, &same_key) {
        Route::Pipeline { build, settings, .. } => {
            assert!(!build);
            assert_eq!(settings.pages, None);
            assert_eq!(settings.ocr_lang, None);
        }
        other => panic!("{other:?}"),
    }
    match warm.convert(InputFormat::Pdf, &ConversionOptions::default()) {
        Route::Pipeline { build, .. } => assert!(build),
        other => panic!("{other:?}"),
    }
    assert_eq!(warm.slot, None);
    assert!(matches!(warm.convert(InputFormat::Docx, &custom), Route::Converter));
}
