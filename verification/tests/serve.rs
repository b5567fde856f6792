use docmill::config::{CliOverrides, Environment, ImgOcrConfig};
use docmill::conversion::{ConversionOptions, WarmPipeline, Word};
use docmill::converted::ImageMode;
use docmill::engine::OcrRunner;
use docmill::input::{InputError, InputFormat};
use docmill::multipart::{multipart_boundary, parse_multipart};
use docmill::postprocess::{OutputMode, OutputTarget};
use docmill::query::{parse_query, percent_decode, Params};
use docmill::serve::{
    accept, dispatch, input_error_status, plan, query_of, queue_full, receive, recover, refuse,
    refuse_conversion, refuse_input, Dispatch, Ended, Method, Refusal, WorkerState,
    COOLDOWN, FORM_HTML, MAX_BODY,
};

#[test]
fn query_parsing_decodes() {
    let q = parse_query("to=json&filename=my%20doc.docx&mode=fence&strict=1");
    assert_eq!(q.get("to").unwrap(), "json");
    assert_eq!(q.get("filename").unwrap(), "my doc.docx");
    assert_eq!(q.get("strict").unwrap(), "1");
    assert!(parse_query("").is_empty());
}

#[test]
fn multipart_extracts_file_and_fields() {
    let boundary = "XBOUND";
    let body = format!(
        "--XBOUND\r\n\
         Content-Disposition: form-data; name=\"mode\"\r\n\r\n\
         quote\r\n\
         --XBOUND\r\n\
         Content-Disposition: form-data; name=\"file\"; filename=\"a b.docx\"\r\n\
         Content-Type: application/octet-stream\r\n\r\n\
         BYTES\x00HERE\r\n\
         --XBOUND--\r\n"
    );
    let (name, bytes, fields) = parse_multipart(body.as_bytes(), boundary).unwrap();
    assert_eq!(name, "a b.docx");
    assert_eq!(bytes, b"BYTES\x00HERE");
    assert_eq!(fields, vec![("mode".to_string(), "quote".to_string())]);
}

#[test]
fn multipart_without_file_is_none() {
    let body = "--B\r\nContent-Disposition: form-data; name=\"x\"\r\n\r\n1\r\n--B--\r\n";
    assert!(parse_multipart(body.as_bytes(), "B").is_none());
}

#[test]
fn boundary_extraction() {
    assert_eq!(
        multipart_boundary("multipart/form-data; boundary=----abc123"),
        Some("----abc123".to_string())
    );
    assert_eq!(multipart_boundary("application/json"), None);
}

fn scale(opts: &Params) -> Option<u32> {
    opts.get("ocr_scale").and_then(|s| s.parse::<f32>().ok()).map(f32::to_bits)
}

fn request_conversion(
    opts: &Params,
    defaults: &ConversionOptions,
) -> Result<ConversionOptions, String> {
    docmill::serve::request_conversion(opts, defaults, scale(opts))
}

#[test]
fn per_request_options_reset_to_startup_defaults() {
    let defaults = ConversionOptions::default();
    let custom = request_conversion(&parse_query("skip_ocr=1&ocr_mode=full_page&ocr_scale=3&heading_hierarchy=1&ocr_lang=zh-Hant&pages=2-3&encoding=windows-1251&page_break_placeholder=PAGE"), &defaults).unwrap();
    assert!(custom.skip_ocr && custom.heading_hierarchy);
    assert_eq!(custom.ocr_lang.as_deref(), Some("ch"));
    assert_eq!(custom.pages, Some((2, 3)));
    let reset = request_conversion(&parse_query(""), &defaults).unwrap();
    assert!(!reset.skip_ocr && !reset.heading_hierarchy);
    assert_eq!(reset.ocr_scale, None);
    assert_eq!(reset.pages, None);
    assert_eq!(reset.encoding, None);
    assert_eq!(reset.page_break_placeholder, None);
    assert!(request_conversion(&parse_query("skip_ocr=maybe"), &defaults).is_err());
    assert!(request_conversion(&parse_query("ocr_scale=NaN"), &defaults).is_err());
}

#[test]
fn a_panicking_conversion_resets_worker_and_returns_500() {
    let mut worker = WorkerState {
        runner: Some(OcrRunner::new(1)),
        pipeline: WarmPipeline::default(),
    };
    let response = recover(&mut worker, &Ended::Panicked).unwrap();
    assert_eq!(response.status, 500);
    assert!(worker.runner.is_none());
    assert!(recover(&mut worker, &Ended::Answered).is_none());
}

#[test]
fn refusals_are_answered_as_errors() {
    let mut worker = WorkerState { runner: Some(OcrRunner::new(1)), ..Default::default() };
    let refusal = Refusal { status: 415, message: "why".to_string() };
    let answer = recover(&mut worker, &Ended::Refused(refusal)).unwrap();
    assert_eq!(answer.status, 415);
    assert_eq!(answer.body, "error: why\n");
    assert_eq!(answer.content_type, "text/plain; charset=utf-8");
    assert!(worker.runner.is_some());
    assert_eq!(refuse(&refuse_conversion("a.pdf", "broken")).body, "error: convert a.pdf: broken\n");
    let unsupported = InputError::Unsupported { name: "x".to_string() };
    assert_eq!(input_error_status(&unsupported), 415);
    assert_eq!(refuse_input(&unsupported).message, "unsupported input format for \"x\"");
    let unread = InputError::Io { name: "x".to_string(), source: "gone".to_string() };
    assert_eq!(refuse_input(&unread).status, 400);
}

fn answered(method: Method, url: &str, length: Option<usize>) -> (u16, String) {
    match dispatch(method, url, length) {
        Dispatch::Answered(a) => (a.status, a.body),
        Dispatch::Queued => panic!("queued"),
    }
}

#[test]
fn requests_are_routed_by_method_and_path() {
    assert_eq!(answered(Method::Get, "/", None), (200, FORM_HTML.to_string()));
    assert_eq!(answered(Method::Get, "/health?x=1", Some(usize::MAX)), (200, "ok\n".to_string()));
    assert!(matches!(dispatch(Method::Post, "/convert?a=b", Some(MAX_BODY)), Dispatch::Queued));
    assert!(matches!(dispatch(Method::Post, "/convert", None), Dispatch::Queued));
    assert_eq!(
        answered(Method::Post, "/convert", Some(MAX_BODY + 1)),
        (413, "error: body exceeds 200 MiB\n".to_string())
    );
    let missing = "not found (try GET /, GET /health, POST /convert)\n".to_string();
    assert_eq!(answered(Method::Get, "/convert", None), (404, missing.clone()));
    assert_eq!(answered(Method::Other, "/", None), (404, missing));
    let full = queue_full();
    assert_eq!(full.status, 503);
    assert_eq!(full.body, "error: conversion queue is full; retry later\n");
    assert_eq!(query_of("/convert?a=b?c"), "a=b?c");
    assert_eq!(query_of("/convert"), "");
}

#[test]
fn escapes_are_decoded() {
    assert_eq!(percent_decode("a+b%2Fc"), "a b/c");
    assert_eq!(percent_decode("%D0%9F"), "П");
    assert_eq!(percent_decode("%ff"), "\u{fffd}");
    assert_eq!(percent_decode("100%"), "100%");
    assert_eq!(percent_decode("%4"), "%4");
    assert_eq!(percent_decode("%zz"), "%zz");
    assert_eq!(percent_decode("%+f"), "\u{f}");
    assert_eq!(percent_decode("naïve"), "naïve");
}

#[test]
fn the_last_of_two_values_counts() {
    let q = parse_query("a=1&b&&a=2&c=");
    assert_eq!(q.get("a").unwrap(), "2");
    assert!(q.get("b").is_none());
    assert_eq!(q.get("c").unwrap(), "");
}

#[test]
fn uploads_are_received_raw_or_as_forms() {
    let raw = receive("filename=a.txt&to=json", "", Ok(b"body".to_vec())).unwrap();
    assert_eq!(raw.filename, "a.txt");
    assert_eq!(raw.bytes, b"body");
    let form = "--B\r\nContent-Disposition: form-data; name=\"to\"\r\n\r\njson\r\n\
                --B\r\ncontent-disposition: form-data; name=\"images\"\r\n\r\nembedded\r\n\
                --B\r\nContent-Disposition: form-data; name=\"file\"; filename=\"x.md\"\r\n\r\nhi\r\n--B--\r\n";
    let got = receive(
        "to=md",
        "Multipart/Form-Data; boundary=\"B\"",
        Ok(form.as_bytes().to_vec()),
    )
    .unwrap();
    assert_eq!(got.filename, "x.md");
    assert_eq!(got.bytes, b"hi");
    assert_eq!(got.params.get("to").unwrap(), "md");
    assert_eq!(got.params.get("images").unwrap(), "embedded");
}

#[test]
fn uploads_are_refused_with_a_reason() {
    let refused = |q: &str, t: &str, b: Result<Vec<u8>, String>| {
        let r = receive(q, t, b).unwrap_err();
        (r.status, r.message)
    };
    assert_eq!(
        refused("", "", Ok(Vec::new())),
        (400, "raw uploads need ?filename=<name.ext>".to_string())
    );
    assert_eq!(
        refused("", "multipart/form-data; boundary=B", Ok(b"--B--".to_vec())),
        (400, "multipart body has no file part".to_string())
    );
    assert_eq!(
        refused("", "", Err("reset".to_string())),
        (400, "read body: reset".to_string())
    );
    assert_eq!(
        refused("filename=a.md", "", Ok(vec![0; MAX_BODY + 1])),
        (413, "body exceeds 200 MiB".to_string())
    );
}

fn config(engine: &str) -> ImgOcrConfig {
    let env = Environment {
        engine: None,
        mode: None,
        lang: None,
        endpoint: Some("http://h".to_string()),
        model: Some("m".to_string()),
        api_key: None,
        prompt: None,
        min_px: None,
        cache_dir: None,
        timeout: None,
        max_retries: None,
        models_dir: None,
        extra_body: None,
        xdg_cache_home: None,
        home: None,
        local_app_data: None,
        user_profile: None,
        found_models_dir: ".models".to_string(),
    };
    let cli = CliOverrides { engine: Some(engine.to_string()), ..Default::default() };
    ImgOcrConfig::resolve(cli, &env).unwrap()
}

#[test]
fn requests_are_planned() {
    let cfg = config("vlm");
    let defaults = ConversionOptions::default();
    let make = |query: &str, format| {
        let params = parse_query(query);
        plan(&params, format, &cfg, &defaults, scale(&params))
            .map_err(|r| (r.status, r.message))
    };
    let p = make("", InputFormat::Image).unwrap();
    assert!(!p.json && p.bypass && p.run_ocr());
    assert_eq!(p.images, ImageMode::Placeholder);
    assert_eq!(p.mode, OutputMode::Fence);
    assert_eq!(p.content_type(), "text/markdown; charset=utf-8");
    let p = make("to=json&images=embedded&mode=placeholder&strict=true", InputFormat::Image).unwrap();
    assert!(p.json && !p.bypass && !p.run_ocr() && p.conversion.strict);
    assert_eq!(p.content_type(), "application/json");
    let post = p.post_options(7);
    assert!(post.keep_picture);
    assert_eq!(post.min_pixels, 7);
    assert!(matches!(post.target, OutputTarget::Json));
    assert!(!make("", InputFormat::Pdf).unwrap().bypass);
    let refused = |query: &str| make(query, InputFormat::Md).unwrap_err();
    assert_eq!(refused("to=dclx"), (400, "to=\"dclx\" is not md|json".to_string()));
    assert_eq!(refused("no_ocr=2"), (400, "no_ocr must be 0|1|false|true".to_string()));
    assert_eq!(refused("pages=x"), (400, "invalid page number 'x'".to_string()));
    assert_eq!(
        refused("images=referenced"),
        (
            400,
            "images must be placeholder|embedded; referenced artifacts are not served".to_string()
        )
    );
    assert_eq!(refused("mode=loud"), (400, "mode=\"loud\" is unknown".to_string()));
}

#[test]
fn workers_get_a_runner_once() {
    let cfg = config("vlm,local");
    let mut worker = WorkerState::default();
    let (plans, _) = worker.ready(&cfg).unwrap().unwrap();
    assert_eq!(plans.len(), 2);
    assert_eq!(worker.runner.as_ref().unwrap().cooldown, Some(COOLDOWN));
    assert!(worker.ready(&cfg).unwrap().is_none());
}

#[test]
fn broken_parts_spoil_an_upload() {
    let file = "--B\r\nContent-Disposition: form-data; filename=\"f\"\r\n\r\nx\r\n";
    assert!(parse_multipart(format!("{file}--B\r\nno headers\r\n--B--").as_bytes(), "B").is_none());
    assert!(parse_multipart(format!("{file}--B\r\nX: y\r\n\r\nz\r\n--B--").as_bytes(), "B").is_none());
    let two = format!("{file}{}--B--", file.replace("\"f\"", "\"g\""));
    assert_eq!(parse_multipart(two.as_bytes(), "B").unwrap().0, "f");
}

#[test]
fn flags_and_parameters_agree() {
    for (flag, name, value) in [
        ("--ocr-mode", "ocr_mode", " FULL_page"),
        ("--ocr-mode", "ocr_mode", "typo"),
        ("--ocr-scale", "ocr_scale", "2.5"),
        ("--ocr-scale", "ocr_scale", "-1"),
        ("--encoding", "encoding", "koi8-r"),
        ("--page-break-placeholder", "page_break_placeholder", "PAGE"),
    ] {
        let mut flagged = ConversionOptions::default();
        let word = Word {
            text: value.to_string(),
            scale: value.parse::<f32>().ok().map(f32::to_bits),
        };
        let by_flag = flagged.parse_flag(flag, Some(&word)).map(|_| flagged);
        let mut params = Params::new();
        params.insert(name.to_string(), value.to_string());
        let by_request = request_conversion(&params, &ConversionOptions::default());
        assert_eq!(format!("{by_flag:?}"), format!("{by_request:?}"));
    }
}

/// A form as browsers send it; the boundary is `B`.
fn form(parts: &[(&str, Option<&str>, &[u8])]) -> Vec<u8> {
    let mut body = Vec::new();
    for (name, file, content) in parts {
        body.extend_from_slice(b"--B\r\nContent-Disposition: form-data; name=\"");
        body.extend_from_slice(name.as_bytes());
        body.extend_from_slice(b"\"");
        if let Some(file) = file {
            body.extend_from_slice(b"; filename=\"");
            body.extend_from_slice(file.as_bytes());
            body.extend_from_slice(b"\"\r\nContent-Type: application/octet-stream");
        }
        body.extend_from_slice(b"\r\n\r\n");
        body.extend_from_slice(content);
        body.extend_from_slice(b"\r\n");
    }
    body.extend_from_slice(b"--B--\r\n");
    body
}

#[test]
fn uploads_arrive_as_they_were_sent() {
    for content in [
        &b""[..],
        b"\r\n",
        b"\r\n\r\n",
        b"\n",
        b"x\r\n",
        b"\r\nx",
        b"\r\n\r\nx\r\n\r\n",
        b"a\r\n-B\r\nb",
        b"\x00\xff",
    ] {
        let body = form(&[("file", Some("f.bin"), content), ("mode", None, b"quote")]);
        let (name, bytes, fields) = parse_multipart(&body, "B").unwrap();
        assert_eq!(name, "f.bin");
        assert_eq!(bytes, content);
        assert_eq!(fields, vec![("mode".to_string(), "quote".to_string())]);
        let got = receive("", "multipart/form-data; boundary=B", Ok(body)).unwrap();
        assert_eq!(got.filename, "f.bin");
        assert_eq!(got.bytes, content);
        assert_eq!(got.params.get("mode").unwrap(), "quote");
    }
}

#[test]
fn fields_are_trimmed_and_may_be_empty() {
    let body =
        form(&[("encoding", None, b""), ("to", None, b" json\r\n"), ("file", Some("f"), b"x")]);
    let (_, bytes, fields) = parse_multipart(&body, "B").unwrap();
    assert_eq!(bytes, b"x");
    assert_eq!(
        fields,
        vec![
            ("encoding".to_string(), String::new()),
            ("to".to_string(), "json".to_string()),
        ]
    );
}

fn bits(text: &str) -> Option<u32> {
    text.parse::<f32>().ok().map(f32::to_bits)
}

#[test]
fn raw_upload_uses_encoding_and_rejects_referenced_images() {
    let cfg = config("local");
    let defaults = ConversionOptions::default();
    let body = [0xcf, 0xf0, 0xe8, 0xe2, 0xe5, 0xf2].to_vec();
    let ask = |query: &str| accept(query, "", Ok(body.clone()), &cfg, &defaults, bits);
    let (note, accepted) = ask("filename=test.txt&encoding=windows-1251");
    assert_eq!(note, None);
    let (source, plan) = accepted.unwrap();
    assert_eq!(source.name, "test.txt");
    assert_eq!(source.bytes, body);
    assert_eq!(plan.conversion.encoding.as_deref(), Some("windows-1251"));
    let (_, refused) = ask("filename=test.txt&images=referenced");
    assert_eq!(refused.unwrap_err().status, 400);
}

#[test]
fn uploads_are_accepted_or_refused_in_order() {
    let cfg = config("vlm");
    let defaults = ConversionOptions::default();
    let ask = |query: &str, body: Result<Vec<u8>, String>| {
        let (note, r) = accept(query, "", body, &cfg, &defaults, bits);
        (note, r.map_err(|e| (e.status, e.message)))
    };
    let refused = |query: &str, body| ask(query, body).1.unwrap_err();
    let text = || Ok(b"plain".to_vec());
    assert_eq!(
        refused("to=odd", Err("reset".to_string())),
        (400, "read body: reset".to_string())
    );
    assert_eq!(
        refused("to=odd&filename=x.bin", text()),
        (415, "unsupported input format for \"x.bin\"".to_string())
    );
    assert_eq!(
        refused("to=odd&filename=x.md", text()),
        (400, "to=\"odd\" is not md|json".to_string())
    );
    assert_eq!(refused("filename=x.md&ocr_scale=NaN", text()).0, 400);
    let (_, plan) = ask("filename=x.md&ocr_scale=2.5", text()).1.unwrap();
    assert_eq!(plan.conversion.ocr_scale, bits("2.5"));
    let pdf = || Ok(b"%PDF-1.7\n".to_vec());
    let (note, accepted) = ask("filename=x.md&to=json", pdf());
    let (source, plan) = accepted.unwrap();
    assert_eq!(source.format, InputFormat::Pdf);
    assert!(plan.json);
    let said = "convert x.md: warning: content identifies pdf but filename suggests md; using content";
    assert_eq!(note.as_deref(), Some(said));
    let (note, accepted) = ask("filename=x.md&to=odd", pdf());
    assert_eq!(note.as_deref(), Some(said));
    assert_eq!(accepted.unwrap_err().0, 400);
}

#[test]
fn queries_arrive_as_they_were_sent() {
    let pairs = [("file name", "a&b=c%"), ("é", "Привет + 1"), ("x", ""), ("file name", "later")];
    for small in [false, true] {
        let escape = |s: &str| {
            let byte = |b: u8| if small { format!("%{b:02x}") } else { format!("%{b:02X}") };
            s.bytes().map(byte).collect::<String>()
        };
        let query: Vec<String> =
            pairs.iter().map(|(k, v)| format!("{}={}", escape(k), escape(v))).collect();
        let got = parse_query(&query.join("&"));
        assert_eq!(got.get("file name").unwrap(), "later");
        assert_eq!(got.get("é").unwrap(), "Привет + 1");
        assert_eq!(got.get("x").unwrap(), "");
    }
    assert_eq!(percent_decode("%c3%A9+%2b"), "é +");
}
