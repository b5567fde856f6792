use docmill::batch::{batch_out_path, batch_way, glob_base, select_files, Batch, BatchWay};
use docmill::cli::{
    dclx_path, export_of, parse_args, parse_serve_args, post_options, CliArgs, Command, Export,
    Parsed, ServeRefusal, Way, DEFAULT_ADDRESS, VERSION_LINE,
};
use docmill::config::{CliOverrides, Environment, ImgOcrConfig};
use docmill::conversion::Word;
use docmill::converted::ImageMode;
use docmill::input::{DetectedSource, InputFormat};
use docmill::postprocess::{OutputMode, OutputTarget};

fn words(args: &[&str]) -> Vec<Word> {
    args.iter()
        .map(|a| Word {
            text: a.to_string(),
            scale: a.parse::<f32>().ok().map(f32::to_bits),
        })
        .collect()
}

fn asks(args: &[&str]) -> CliArgs {
    match parse_args(&words(args)) {
        Parsed::Asks(a) => a,
        other => panic!("{other:?}"),
    }
}

fn refusal(args: &[&str]) -> String {
    match parse_args(&words(args)) {
        Parsed::Refused(e) => e,
        Parsed::Asks(a) => match a.request.command() {
            Command::Refused(e) => e,
            other => panic!("{other:?}"),
        },
        other => panic!("{other:?}"),
    }
}

fn config(cli: CliOverrides) -> ImgOcrConfig {
    let env = Environment {
        engine: None,
        mode: None,
        lang: None,
        endpoint: Some("http://h".to_string()),
        model: Some("m".to_string()),
        api_key: None,
        prompt: None,
        min_px: None,
        cache_dir: None,
        timeout: None,
        max_retries: None,
        models_dir: None,
        extra_body: None,
        xdg_cache_home: None,
        home: None,
        local_app_data: None,
        user_profile: None,
        found_models_dir: ".models".to_string(),
    };
    ImgOcrConfig::resolve(cli, &env).unwrap()
}

#[test]
fn version_matches_docling_release() {
    let parsed = parse_args(&words(&["--version"]));
    assert_eq!(parsed.exit_code(), Some(0));
    assert!(matches!(parsed, Parsed::Version));
    assert_eq!(VERSION_LINE, "docmill 1.4.2\n");
}

fn code(args: &[&str]) -> Option<u8> {
    match parse_args(&words(args)) {
        Parsed::Asks(a) => a.request.command().exit_code(),
        other => other.exit_code(),
    }
}

#[test]
fn positional_output_remains_an_exact_file() {
    let asked = asks(&[
        "--img-ocr-mode",
        "placeholder",
        "--output",
        "/dir/chosen.output",
        "/dir/one.md",
    ]);
    let command = asked.request.command();
    assert_eq!(command.exit_code(), None);
    match command {
        Command::Single { path, images } => {
            assert_eq!(path, "/dir/one.md");
            assert_eq!(export_of(&asked.request.to, images), Export::Markdown);
        }
        other => panic!("{other:?}"),
    }
    let source = DetectedSource::from_bytes("one.md", b"# One\n".to_vec()).unwrap();
    let cfg = config(asked.overrides);
    assert_eq!(cfg.mode, OutputMode::Placeholder);
    assert!(!matches!(asked.request.way(&cfg, source.format), Way::Refused(_)));
    assert_eq!(asked.request.output.as_deref(), Some("/dir/chosen.output"));
}

/// The files of a batch and where they go, or what is said of them.
fn batch(args: &[&str], found: &[(&str, &str)], directory: bool) -> (Vec<String>, Vec<String>, Batch) {
    let asked = asks(args);
    let (pattern, outdir) = match asked.request.command() {
        Command::Batch { pattern, outdir, .. } => (pattern, outdir),
        other => panic!("{other:?}"),
    };
    assert_eq!(asked.request.jobs, 2);
    let names = found.iter().map(|(name, _)| name.to_string()).collect();
    let files = select_files(&pattern, names, directory).unwrap();
    let base = if directory { pattern } else { glob_base(&pattern) };
    let (mut written, mut said) = (Vec::new(), Vec::new());
    let mut batch = Batch::new(files.len());
    while let Some(i) = batch.take() {
        let (_, body) = found.iter().find(|(name, _)| *name == files[i]).unwrap();
        match DetectedSource::from_bytes(&files[i], body.as_bytes().to_vec()) {
            Ok(_) => {
                written.push(batch_out_path(&files[i], &base, &outdir, &asked.request.to));
                batch.converted();
            }
            Err(e) => {
                assert!(!batch.fail(&e.message()));
                said.push(e.message());
            }
        }
    }
    (written, said, batch)
}

#[test]
fn batch_recurses_and_preserves_relative_paths() {
    let (written, said, ended) = batch(
        &[
            "--input",
            "/dir/input",
            "--output",
            "/dir/output",
            "--jobs",
            "2",
            "--img-ocr-mode",
            "placeholder",
        ],
        &[
            ("/dir/input/root.md", "root\n"),
            ("/dir/input/nested/child.md", "child\n"),
            ("/dir/input/ignored.log", "not a document\n"),
        ],
        true,
    );
    assert_eq!(ended.exit_code(), 0, "{said:?}");
    assert!(written.contains(&"/dir/output/root.md".to_string()));
    assert!(written.contains(&"/dir/output/nested/child.md".to_string()));
    assert!(!written.contains(&"/dir/output/ignored.md".to_string()));
}

#[test]
fn batch_continues_after_a_file_failure() {
    let (written, said, ended) = batch(
        &[
            "--input",
            "/dir/input/*",
            "--output",
            "/dir/output",
            "--jobs",
            "2",
            "--img-ocr-mode",
            "placeholder",
        ],
        &[("/dir/input/good.md", "good\n"), ("/dir/input/bad.bin", "not recognizable\n")],
        false,
    );
    assert_eq!(ended.exit_code(), 1);
    assert!(written.contains(&"/dir/output/good.md".to_string()));
    assert!(said.iter().any(|line| line.contains("bad.bin")), "{said:?}");
    assert!(ended.summary().contains("batch: 1 converted, 1 failed"));
}

#[test]
fn batch_only_flags_are_validated() {
    let jobs = ["--jobs", "2", "fake.md"];
    assert_eq!(code(&jobs), Some(2));
    assert!(refusal(&jobs).contains("--jobs requires --input"));

    let zero = ["--jobs", "0", "fake.md"];
    assert_eq!(code(&zero), Some(2));
    assert!(refusal(&zero).contains("positive integer"));

    let missing_output = ["--input", "*.md"];
    assert_eq!(code(&missing_output), Some(2));
    assert!(refusal(&missing_output).contains("needs --output DIR"));
}

#[test]
fn what_is_shown_decides_the_code() {
    assert_eq!(code(&["--help"]), Some(0));
    assert_eq!(code(&[]), Some(2));
    assert_eq!(code(&["one.md"]), None);
    assert_eq!(code(&["--input", "*.md", "--output", "out"]), None);
}

#[test]
fn an_empty_command_line_shows_the_usage() {
    let a = asks(&[]);
    assert!(matches!(a.request.command(), Command::Usage));
    assert_eq!(a.request.to, "md");
    assert_eq!(a.request.images, "placeholder");
    assert_eq!(a.request.jobs, 1);
    assert!(matches!(parse_args(&words(&["x", "-h", "--odd"])), Parsed::Help));
    assert!(matches!(parse_args(&words(&["-V"])), Parsed::Version));
}

#[test]
fn every_switch_reaches_its_setting() {
    let a = asks(&[
        "--strict",
        "--fetch-images",
        "--no-stream",
        "--no-table-former",
        "--no-ocr",
        "--force-full-page-ocr",
        "--no-text-panels",
        "--use-web-browser",
        "--enrich-picture-classes",
        "--enrich-code",
        "--enrich-formula",
        "--skip-ocr",
        "--heading-hierarchy",
        "--no-img-ocr-cache",
        "file.pdf",
    ]);
    let c = &a.conversion;
    assert!(c.strict && c.fetch_images && c.no_table_former && c.no_ocr);
    assert!(c.force_full_page_ocr && c.no_text_panels && c.use_web_browser);
    assert!(c.enrich_picture_classes && c.enrich_code && c.enrich_formula);
    assert!(c.skip_ocr && c.heading_hierarchy);
    assert!(a.request.no_stream && a.overrides.no_cache);
    assert_eq!(a.request.path.as_deref(), Some("file.pdf"));
}

#[test]
fn every_value_reaches_its_setting() {
    let a = asks(&[
        "--to", "json", "-o", "out", "--images", "embedded", "--pages", " 2 - 5", "--ocr-lang",
        "en-US", "--asr-model", "tiny", "--asr-lang", "auto", "--video-frames", "7", "--pipeline",
        "vlm", "--vlm-endpoint", "http://v", "--vlm-model", "vm", "--bench-warm", "3",
        "--ocr-mode", "FULL_PAGE", "--ocr-scale", "1.5", "--encoding", "koi8-r",
        "--page-break-placeholder", "--", "--img-ocr-engine", "vlm", "--img-ocr-mode", "text",
        "--img-ocr-lang", "ch", "--img-ocr-endpoint", "http://e", "--img-ocr-model", "im",
        "--img-ocr-api-key", "k", "--img-ocr-prompt", "p", "--img-ocr-min-px", "9",
        "--img-ocr-cache-dir", "/c", "--img-ocr-timeout", "8", "--img-ocr-max-retries", "1",
        "--img-ocr-models-dir", "/m", "in.pdf",
    ]);
    let (r, c, o) = (&a.request, &a.conversion, &a.overrides);
    assert_eq!(r.to, "json");
    assert_eq!(r.output.as_deref(), Some("out"));
    assert_eq!(r.images, "embedded");
    assert_eq!(r.bench_warm, Some(3));
    assert!(r.uses_vlm());
    assert_eq!(r.vlm_endpoint.as_deref(), Some("http://v"));
    assert_eq!(r.vlm_model.as_deref(), Some("vm"));
    assert_eq!(c.pages, Some((2, 5)));
    assert_eq!(c.ocr_lang.as_deref(), Some("en"));
    assert_eq!(c.asr_model.as_deref(), Some("tiny"));
    assert_eq!(c.asr_lang.as_deref(), Some("auto"));
    assert_eq!(c.video_frames, Some(7));
    assert_eq!(c.ocr_mode.as_deref(), Some("full_page"));
    assert_eq!(c.ocr_scale, Some(1.5f32.to_bits()));
    assert_eq!(c.encoding.as_deref(), Some("koi8-r"));
    assert_eq!(c.page_break_placeholder.as_deref(), Some("--"));
    assert_eq!(o.engine.as_deref(), Some("vlm"));
    assert_eq!(o.mode.as_deref(), Some("text"));
    assert_eq!(o.lang.as_deref(), Some("ch"));
    assert_eq!(o.endpoint.as_deref(), Some("http://e"));
    assert_eq!(o.model.as_deref(), Some("im"));
    assert_eq!(o.api_key.as_deref(), Some("k"));
    assert_eq!(o.prompt.as_deref(), Some("p"));
    assert_eq!(o.min_px.as_deref(), Some("9"));
    assert_eq!(o.cache_dir.as_deref(), Some("/c"));
    assert_eq!(o.timeout.as_deref(), Some("8"));
    assert_eq!(o.max_retries.as_deref(), Some("1"));
    assert_eq!(o.models_dir.as_deref(), Some("/m"));
    assert_eq!(r.path.as_deref(), Some("in.pdf"));
    assert!(matches!(
        r.command(),
        Command::Single { images: ImageMode::Embedded, .. }
    ));
}

#[test]
fn missing_and_wrong_values_are_refused() {
    assert_eq!(refusal(&["--input"]), "--input needs a glob pattern or directory");
    assert_eq!(refusal(&["-o"]), "--output needs a path");
    assert_eq!(refusal(&["--jobs"]), "--jobs needs a positive integer");
    assert_eq!(refusal(&["--bench-warm", "x"]), "--bench-warm needs a positive run count");
    assert_eq!(refusal(&["--pipeline"]), "--pipeline needs a value (standard|vlm)");
    assert_eq!(refusal(&["--pipeline", "x"]), "--pipeline \"x\" is not standard|vlm");
    assert_eq!(refusal(&["--pages"]), "--pages needs a range like 1-10");
    assert_eq!(refusal(&["--pages", "x"]), "--pages: invalid page number 'x'");
    assert_eq!(refusal(&["--pages", "0-3"]), "--pages: pages are 1-based; the range starts at 1");
    assert_eq!(
        refusal(&["--pages", "5 - 3"]),
        "--pages: range 5-3 is inverted (first <= last)"
    );
    assert_eq!(refusal(&["--ocr-lang"]), "--ocr-lang needs a value (en|ch)");
    assert_eq!(refusal(&["--ocr-mode"]), "--ocr-mode needs a value");
    assert_eq!(refusal(&["--ocr-scale", "0"]), "OCR scale \"0\" must be finite and positive");
    assert_eq!(refusal(&["--img-ocr-max-retries"]), "--img-ocr-max-retries needs a value");
    assert_eq!(refusal(&["--odd"]), "unknown flag '--odd' (try --help)");
    assert_eq!(refusal(&["--to", "pdf"]), "unknown --to 'pdf' (expected: md, json, dclx, chunks)");
    assert_eq!(refusal(&["--to"]), "unknown --to '' (expected: md, json, dclx, chunks)");
    assert_eq!(
        refusal(&["--images", "x"]),
        "unknown --images 'x' (expected: placeholder, embedded, referenced)"
    );
    assert_eq!(
        refusal(&["--input", "d", "f"]),
        "--input and a positional input file are mutually exclusive"
    );
    assert_eq!(
        refusal(&["--input", "d", "--bench-warm", "1"]),
        "--bench-warm is a single-file mode; drop --input"
    );
}

#[test]
fn batches_need_a_pattern_and_a_directory() {
    match asks(&["--input", "in", "--output", "out", "--jobs", "3"]).request.command() {
        Command::Batch { pattern, outdir, images } => {
            assert_eq!((pattern.as_str(), outdir.as_str()), ("in", "out"));
            assert_eq!(images, ImageMode::Placeholder);
        }
        other => panic!("{other:?}"),
    }
}

#[test]
fn a_file_goes_the_way_that_its_format_and_the_engines_allow() {
    let remote = config(CliOverrides { engine: Some("vlm".into()), ..Default::default() });
    let local = config(CliOverrides::default());
    let silent = config(CliOverrides { mode: Some("placeholder".into()), ..Default::default() });
    let way = |args: &[&str], cfg: &ImgOcrConfig, format| asks(args).request.way(cfg, format);
    assert!(matches!(way(&["f"], &remote, InputFormat::Image), Way::Bypass));
    assert!(matches!(way(&["f"], &remote, InputFormat::Pdf), Way::Whole));
    assert!(matches!(way(&["f"], &local, InputFormat::Image), Way::Whole));
    assert!(matches!(way(&["f"], &silent, InputFormat::Md), Way::Stream));
    assert!(matches!(way(&["f", "--no-stream"], &silent, InputFormat::Md), Way::Whole));
    assert!(matches!(way(&["f", "-o", "x"], &silent, InputFormat::Md), Way::Whole));
    assert!(matches!(way(&["f", "--to", "json"], &silent, InputFormat::Md), Way::Whole));
    assert!(matches!(
        way(&["f", "--bench-warm", "2"], &silent, InputFormat::Pdf),
        Way::Bench { runs: 2 }
    ));
    assert!(matches!(way(&["f", "--pipeline", "vlm"], &remote, InputFormat::Image), Way::Vlm));
    assert!(matches!(
        way(&["f", "--pipeline", "vlm"], &remote, InputFormat::Docx),
        Way::Refused(_)
    ));
    assert_eq!(batch_way(true, &remote, InputFormat::Image), BatchWay::Vlm);
    assert_eq!(batch_way(false, &remote, InputFormat::Image), BatchWay::Bypass);
    assert_eq!(batch_way(false, &local, InputFormat::Image), BatchWay::Pipeline);
    assert_eq!(batch_way(false, &local, InputFormat::Docx), BatchWay::Converter);
}

#[test]
fn exports_follow_the_format_and_the_pictures() {
    assert_eq!(export_of("dclx", ImageMode::Embedded), Export::Archive);
    assert_eq!(export_of("json", ImageMode::Embedded), Export::Json);
    assert_eq!(export_of("chunks", ImageMode::Embedded), Export::Chunks);
    assert_eq!(export_of("md", ImageMode::Placeholder), Export::Markdown);
    assert_eq!(export_of("markdown", ImageMode::Referenced), Export::Illustrated);
    assert_eq!(dclx_path("dir/a.docx", &None), "a.dclx");
    assert_eq!(dclx_path("..", &None), "document.dclx");
    assert_eq!(dclx_path("a.docx", &Some("b".to_string())), "b");
    let opts = post_options(&config(CliOverrides::default()), ImageMode::Embedded, "dclx");
    assert_eq!(opts.mode, OutputMode::Fence);
    assert_eq!(opts.min_pixels, 2500);
    assert!(opts.keep_picture);
    assert!(matches!(opts.target, OutputTarget::DocLang));
}

#[test]
fn servers_start_with_their_options() {
    let s = parse_serve_args(&words(&[])).unwrap();
    assert_eq!(s.addr, DEFAULT_ADDRESS);
    let s = parse_serve_args(&words(&[
        "--addr", "h:1", "--strict", "--no-ocr", "--ocr-lang", "zh", "--img-ocr-mode", "quote",
        "--skip-ocr",
    ]))
    .unwrap();
    assert_eq!(s.addr, "h:1");
    assert!(s.conversion.strict && s.conversion.no_ocr && s.conversion.skip_ocr);
    assert_eq!(s.conversion.ocr_lang.as_deref(), Some("ch"));
    assert_eq!(s.overrides.mode.as_deref(), Some("quote"));
    let refused = |args: &[&str]| parse_serve_args(&words(args)).unwrap_err();
    assert!(matches!(refused(&["--addr"]), ServeRefusal::Usage(e) if e == "--addr needs HOST:PORT"));
    assert!(matches!(
        refused(&["--ocr-lang"]),
        ServeRefusal::Usage(e) if e == "--ocr-lang needs a language tag"
    ));
    assert!(matches!(refused(&["--fetch-images"]), ServeRefusal::Unknown(w) if w == "--fetch-images"));
}
