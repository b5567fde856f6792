use docmill::converted::{apply, images_to_read, one_picture_document, picture_document, Document};
use docmill::document::{ContentLayer, Node, PictureImage};
use docmill::engine::{OcrFailure, OcrOutcome, OcrText};
use docmill::postprocess::{contains_table, count_pictures, OcrStats, OutputMode, OutputTarget, PostOptions};

fn image(w: u32, h: u32, data: Vec<u8>) -> Option<PictureImage> {
    Some(PictureImage { mimetype: "image/png".into(), width: w, height: h, data })
}

fn picture(w: u32, h: u32) -> Node {
    Node::Picture {
        key: 0,
        caption: None,
        caption_href: None,
        image: image(w, h, vec![1, 2, 3, w as u8, h as u8]),
    }
}

fn captioned(caption: &str, data: Vec<u8>) -> Node {
    Node::Picture {
        key: 0,
        caption: Some(caption.into()),
        caption_href: None,
        image: image(100, 100, data),
    }
}

fn paragraph(text: &str) -> Node {
    Node::Paragraph { text: text.into() }
}

fn doc(nodes: Vec<Node>) -> Document {
    Document {
        name: "test".into(),
        nodes,
        tree: None,
        strict_markdown: false,
        page_break_placeholder: None,
    }
}

/// An engine that gives scripted answers.
struct Mock {
    responses: Vec<Result<String, OcrFailure>>,
    grid: Option<String>,
    calls: usize,
}

fn mock(responses: Vec<Result<String, OcrFailure>>) -> Mock {
    Mock { responses, grid: None, calls: 0 }
}

impl Mock {
    fn read(&mut self) -> Option<OcrOutcome> {
        self.calls += 1;
        let text = self.responses.remove(0).ok()?;
        let answer = OcrText { text, grid: self.grid.clone() };
        Some(OcrOutcome::fresh("mock", answer, 0).0)
    }
}

fn run(d: &mut Document, engine: &mut Mock, opts: &PostOptions) -> OcrStats {
    let n = images_to_read(d, &[], opts).len();
    let outcomes: Vec<Option<OcrOutcome>> = (0..n).map(|_| engine.read()).collect();
    apply(d, &[], opts, &outcomes)
}

fn opts(mode: OutputMode) -> PostOptions {
    PostOptions { mode, min_pixels: 0, keep_picture: false, target: OutputTarget::Markdown }
}

fn layer(l: ContentLayer) -> docling_core::ContentLayer {
    match l {
        ContentLayer::Furniture => docling_core::ContentLayer::Furniture,
        ContentLayer::Notes => docling_core::ContentLayer::Notes,
        ContentLayer::Invisible => docling_core::ContentLayer::Invisible,
    }
}

/// The node that the exporters know.
fn exported(node: &Node) -> docling_core::Node {
    match node {
        Node::PageInfo { page_no, .. } => {
            docling_core::Node::PageInfo { page_no: *page_no, width: 100.0, height: 100.0 }
        }
        Node::Furniture { layer: l, inner } => docling_core::Node::Furniture {
            layer: layer(*l),
            inner: Box::new(exported(inner)),
        },
        Node::Located { location, inner } => docling_core::Node::Located {
            location: *location,
            inner: Box::new(exported(inner)),
        },
        Node::Group { children, .. } => docling_core::Node::Group {
            label: "section".into(),
            name: None,
            layer: None,
            children: children.iter().map(exported).collect(),
        },
        Node::Table { rows, location, .. } => docling_core::Node::Table(docling_core::Table {
            rows: rows.clone(),
            location: *location,
            ..Default::default()
        }),
        Node::Picture { caption, caption_href, image, .. } => docling_core::Node::Picture {
            caption: caption.clone(),
            caption_href: caption_href.clone(),
            image: image.as_ref().map(|i| docling_core::PictureImage {
                mimetype: i.mimetype.clone(),
                width: i.width,
                height: i.height,
                data: i.data.clone(),
            }),
            classification: None,
            caption_parent: Default::default(),
        },
        Node::Paragraph { text } => docling_core::Node::Paragraph { text: text.clone() },
        Node::Caption { text, href } => {
            docling_core::Node::Caption { text: text.clone(), href: Some(href.clone()) }
        }
        Node::Code { text } => docling_core::Node::Code {
            language: None,
            text: text.clone(),
            orig: None,
            pretty: None,
        },
        other => panic!("{other:?}"),
    }
}

fn converted(d: &Document) -> docling_core::DoclingDocument {
    let mut out = docling_core::DoclingDocument::new(d.name.clone());
    out.nodes = d.nodes.iter().map(exported).collect();
    out.strict_markdown = d.strict_markdown;
    out
}

fn markdown(d: &Document) -> String {
    converted(d).export_to_markdown()
}

/// The texts of the blocks with a blank line between them: Markdown without
/// the hard line breaks that the exporter writes.
fn blocks(d: &Document) -> String {
    let texts: Vec<&str> = d
        .nodes
        .iter()
        .map(|n| match n {
            Node::Paragraph { text } => text.as_str(),
            Node::Picture { .. } => "<!-- image -->",
            other => panic!("{other:?}"),
        })
        .collect();
    texts.join("\n\n")
}

#[test]
fn fence_mode_prefers_grid_and_falls_back_to_text() {
    let mut m = mock(vec![Ok("Menu\nContent".into())]);
    m.grid = Some("Menu          Content".into());
    let mut d = doc(vec![picture(100, 100)]);
    run(&mut d, &mut m, &opts(OutputMode::Fence));
    let md = markdown(&d);
    assert!(md.contains("```\nMenu          Content\n```"), "{md:?}");
    let mut d = doc(vec![picture(100, 100)]);
    run(&mut d, &mut mock(vec![Ok("just\ntext".into())]), &opts(OutputMode::Fence));
    let md = markdown(&d);
    assert!(md.contains("```\njust\ntext\n```"), "{md:?}");
    assert!(!md.contains("<!-- image -->"), "{md:?}");
}

#[test]
fn fence_mode_defuses_backtick_lines() {
    let mut d = doc(vec![picture(100, 100)]);
    let mut m = mock(vec![Ok("code:\n```sh\nls\n```".into())]);
    run(&mut d, &mut m, &opts(OutputMode::Fence));
    let md = markdown(&d);
    assert!(md.contains(" ```sh"), "{md:?}");
    let bare = md.lines().filter(|l| l.trim() == "```" && !l.starts_with(' ')).count();
    assert_eq!(bare, 2, "outer fence only: {md:?}");
}

#[test]
fn markers_mode_replaces_placeholder() {
    let mut d = doc(vec![paragraph("before"), picture(100, 100), paragraph("after")]);
    let mut m = mock(vec![Ok("line one\nline two".into())]);
    let stats = run(&mut d, &mut m, &opts(OutputMode::Markers));
    assert_eq!((stats.pictures, stats.ocred), (1, 1));
    assert!(!markdown(&d).contains("<!-- image -->"), "placeholder replaced");
    let md = blocks(&d);
    assert!(!md.contains("<!-- image -->"), "placeholder replaced: {md:?}");
    let expected = "before\n\n<!-- ocr:begin engine=mock -->\n\nline one\nline two\n\n<!-- ocr:end -->\n\nafter";
    assert!(md.contains(expected), "markers block: {md:?}");
}

#[test]
fn text_mode_inserts_bare_text() {
    let mut d = doc(vec![picture(100, 100)]);
    run(&mut d, &mut mock(vec![Ok("just text".into())]), &opts(OutputMode::Text));
    let md = markdown(&d);
    assert!(md.contains("just text"), "{md:?}");
    assert!(!md.contains("ocr:begin"), "{md:?}");
    assert!(!md.contains("<!-- image -->"), "{md:?}");
}

#[test]
fn quote_mode_boxes_each_line() {
    let mut d = doc(vec![picture(100, 100)]);
    let mut m = mock(vec![Ok("Invoice #1\n\nTotal: $5".into())]);
    run(&mut d, &mut m, &opts(OutputMode::Quote));
    let md = blocks(&d);
    assert!(md.contains("> Invoice #1\n>\n> Total: $5"), "{md:?}");
}

#[test]
fn strict_mode_keeps_markers_intact() {
    let mut d = doc(vec![picture(100, 100)]);
    d.strict_markdown = true;
    run(&mut d, &mut mock(vec![Ok("text".into())]), &opts(OutputMode::Markers));
    let md = markdown(&d);
    assert!(md.contains("<!-- ocr:begin engine=mock -->"), "{md:?}");
    assert!(md.contains("<!-- ocr:end -->"), "{md:?}");
}

#[test]
fn empty_ocr_drops_picture_and_placeholder() {
    let mut d = doc(vec![paragraph("before"), picture(100, 100), paragraph("after")]);
    let mut m = mock(vec![Ok("   \n  ".into())]);
    let stats = run(&mut d, &mut m, &opts(OutputMode::Markers));
    assert_eq!((stats.empty, stats.ocred), (1, 0));
    assert_eq!(d.nodes.len(), 2, "picture removed from the tree");
    let md = markdown(&d);
    assert!(!md.contains("<!-- image -->"), "no placeholder: {md:?}");
    assert!(!md.contains("ocr:begin"), "no markers either: {md:?}");
}

#[test]
fn empty_ocr_keeps_caption_and_keeps_rendered_image() {
    let mut d = doc(vec![captioned("Figure 2. Logo", vec![7])]);
    run(&mut d, &mut mock(vec![Ok(String::new())]), &opts(OutputMode::Markers));
    let md = markdown(&d);
    assert!(md.contains("Figure 2. Logo"), "{md:?}");
    assert!(!md.contains("<!-- image -->"), "{md:?}");
    let mut d = doc(vec![picture(100, 100)]);
    let mut o = opts(OutputMode::Markers);
    o.keep_picture = true;
    let stats = run(&mut d, &mut mock(vec![Ok(String::new())]), &o);
    assert_eq!(stats.empty, 1);
    assert!(matches!(&d.nodes[0], Node::Picture { image: Some(_), .. }));
}

#[test]
fn failed_ocr_keeps_placeholder() {
    let mut d = doc(vec![picture(100, 100)]);
    let mut m = mock(vec![Err(OcrFailure::Engine("no model".into()))]);
    let stats = run(&mut d, &mut m, &opts(OutputMode::Markers));
    assert_eq!((stats.failed, stats.ocred), (1, 0));
    assert!(markdown(&d).contains("<!-- image -->"));
}

#[test]
fn imageless_picture_untouched() {
    let mut d = doc(vec![Node::Picture {
        key: 0,
        caption: None,
        caption_href: None,
        image: None,
    }]);
    let stats = run(&mut d, &mut mock(vec![]), &opts(OutputMode::Markers));
    assert_eq!((stats.pictures, stats.ocred, stats.failed), (1, 0, 0));
    assert!(markdown(&d).contains("<!-- image -->"));
}

#[test]
fn small_picture_skipped() {
    let mut d = doc(vec![picture(16, 16), picture(200, 200)]);
    let mut o = opts(OutputMode::Text);
    o.min_pixels = 2500;
    let stats = run(&mut d, &mut mock(vec![Ok("big".into())]), &o);
    assert_eq!((stats.skipped_small, stats.ocred), (1, 1));
    let md = markdown(&d);
    assert!(md.contains("<!-- image -->"), "small one keeps placeholder: {md:?}");
    assert!(md.contains("big"), "{md:?}");
}

#[test]
fn caption_survives_picture_removal() {
    let mut d = doc(vec![captioned("Figure 1. Results", vec![9])]);
    run(&mut d, &mut mock(vec![Ok("bars".into())]), &opts(OutputMode::Text));
    let md = markdown(&d);
    let cap = md.find("Figure 1. Results").expect("caption kept");
    let body = md.find("bars").expect("text kept");
    assert!(cap < body, "caption precedes text: {md:?}");
}

#[test]
fn located_wrapper_recursed_and_preserved() {
    let mut d = doc(vec![Node::Located {
        location: [1, 2, 3, 4],
        inner: Box::new(picture(100, 100)),
    }]);
    let stats = run(&mut d, &mut mock(vec![Ok("pdf text".into())]), &opts(OutputMode::Text));
    assert_eq!(stats.ocred, 1);
    assert!(matches!(
        &d.nodes[0],
        Node::Located { location: [1, 2, 3, 4], inner } if matches!(**inner, Node::Paragraph { .. })
    ));
    assert!(markdown(&d).contains("pdf text"));
}

#[test]
fn group_children_are_walked() {
    let mut d = doc(vec![Node::Group { key: 0, layer: None, children: vec![picture(100, 100)] }]);
    let stats = run(&mut d, &mut mock(vec![Ok("grouped".into())]), &opts(OutputMode::Text));
    assert_eq!(stats.ocred, 1);
    assert!(markdown(&d).contains("grouped"));
}

#[test]
fn furniture_skipped_unless_hidden_enabled() {
    let furniture_pic = || Node::Furniture {
        layer: ContentLayer::Furniture,
        inner: Box::new(picture(100, 100)),
    };
    let mut m = mock(vec![Ok("header".into())]);
    let mut d = doc(vec![furniture_pic()]);
    let stats = run(&mut d, &mut m, &opts(OutputMode::Text));
    assert_eq!((stats.pictures, stats.ocred), (1, 0));
    assert_eq!(m.calls, 0, "no engine call for hidden layers");
    let mut d = doc(vec![furniture_pic()]);
    let mut o = opts(OutputMode::Text);
    o.target = OutputTarget::DocLang;
    let stats = run(&mut d, &mut mock(vec![Ok("header".into())]), &o);
    assert_eq!(stats.ocred, 1);
    assert!(matches!(&d.nodes[0], Node::Furniture { .. }));
    assert!(!markdown(&d).contains("header"));
}

#[test]
fn keep_picture_appends_after_the_image() {
    let mut d = doc(vec![picture(100, 100)]);
    let mut o = opts(OutputMode::Text);
    o.keep_picture = true;
    run(&mut d, &mut mock(vec![Ok("visible text".into())]), &o);
    assert!(matches!(&d.nodes[0], Node::Picture { image: Some(_), .. }));
    assert!(matches!(&d.nodes[1], Node::Paragraph { .. }));
    let (md, _) = converted(&d)
        .export_to_markdown_with_images(docling_core::ImageMode::Embedded, "artifacts");
    assert!(md.contains("![Image](data:image/png;base64,"), "{md:?}");
    assert!(md.contains("visible text"), "{md:?}");
}

#[test]
fn multiple_pictures_all_processed() {
    let mut d = doc(vec![picture(100, 100), paragraph("mid"), picture(90, 90)]);
    let mut m = mock(vec![Ok("first".into()), Ok("second".into())]);
    let stats = run(&mut d, &mut m, &opts(OutputMode::Markers));
    assert_eq!(stats.ocred, 2);
    let md = markdown(&d);
    let (a, b, c) =
        (md.find("first").unwrap(), md.find("mid").unwrap(), md.find("second").unwrap());
    assert!(a < b && b < c, "order preserved: {md:?}");
}

#[test]
fn upstream_rtf_picture_reaches_picture_ocr() {
    let png_hex = "89504e470d0a1a0a0000000d49484452000000010000000108060000001f15c4890000000d49444154789c626001000000ffff03000006000557bfabd40000000049454e44ae426082";
    let rtf =
        format!(r"{{\rtf1\ansi{{\pict\pngblip\picw100\pich100 {png_hex}}}\par}}").into_bytes();
    let source =
        docling::SourceDocument::from_bytes("picture.rtf", docling::InputFormat::Rtf, rtf);
    let converted = docling::DocumentConverter::new().convert(source).unwrap().document;
    let mut document = doc(converted
        .nodes
        .into_iter()
        .map(|node| match node {
            docling_core::Node::Picture { caption, caption_href, image, .. } => Node::Picture {
                key: 0,
                caption,
                caption_href,
                image: image.map(|i| PictureImage {
                    mimetype: i.mimetype,
                    width: i.width,
                    height: i.height,
                    data: i.data,
                }),
            },
            docling_core::Node::Paragraph { text } => Node::Paragraph { text },
            other => panic!("{other:?}"),
        })
        .collect());
    let mut m = mock(vec![Ok("chosen paddle text".into())]);

    let stats = run(&mut document, &mut m, &opts(OutputMode::Text));

    assert_eq!(stats.ocred, 1);
    assert!(markdown(&document).contains("chosen paddle text"));
}

#[test]
fn structured_table_on_same_page_suppresses_picture_ocr() {
    let mut d = doc(vec![
        Node::PageInfo { page_no: 1, key: 0 },
        Node::Located {
            location: [10, 10, 110, 110],
            inner: Box::new(Node::Table {
                key: 0,
                rows: vec![vec!["A".into(), "B".into()]],
                location: None,
                cells: Vec::new(),
            }),
        },
        Node::Located { location: [0, 0, 90, 110], inner: Box::new(picture(100, 100)) },
    ]);
    let mut m = mock(vec![Ok("duplicate".into())]);
    let stats = run(&mut d, &mut m, &opts(OutputMode::Text));
    assert_eq!(stats.skipped_structured, 1);
    assert_eq!(stats.ocred, 0);
    assert_eq!(m.calls, 0);
    assert!(markdown(&d).contains("<!-- image -->"));
}

#[test]
fn table_overlap_threshold_is_eighty_percent() {
    assert!(contains_table([0, 0, 80, 100], [0, 0, 100, 100]));
    assert!(!contains_table([0, 0, 79, 100], [0, 0, 100, 100]));
    assert!(!contains_table([0, 0, 100, 100], [10, 10, 10, 50]));
}

#[test]
fn counters_are_summed_up_in_a_line() {
    let mut d = doc(vec![
        picture(100, 100),
        picture(10, 10),
        picture(100, 100),
        picture(100, 100),
    ]);
    let mut o = opts(OutputMode::Text);
    o.min_pixels = 2500;
    let mut m = mock(vec![
        Ok("a".into()),
        Ok(" ".into()),
        Err(OcrFailure::Image("x".into())),
    ]);
    let stats = run(&mut d, &mut m, &o);
    assert_eq!(stats.pictures, 4);
    let again = doc(vec![
        Node::Group { key: 0, layer: None, children: vec![picture(1, 1), paragraph("x")] },
        Node::Located { location: [0; 4], inner: Box::new(picture(1, 1)) },
    ]);
    assert_eq!(count_pictures(&again.nodes, &o), Some(2));
    assert_eq!((stats.ocred, stats.empty, stats.failed, stats.skipped_small), (1, 1, 1, 1));
    assert_eq!(
        stats.summary(),
        "docmill: 4 picture(s), 1 ocr'd (0 cached), 1 skipped (small), 0 skipped (structured table), 1 empty, 1 failed"
    );
}

#[test]
fn rich_cells_are_walked_for_doclang_only() {
    let table = || Node::Table {
        key: 0,
        rows: vec![vec!["".into()]],
        location: None,
        cells: vec![vec![picture(100, 100)]],
    };
    let mut o = opts(OutputMode::Text);
    let mut d = doc(vec![table()]);
    let stats = run(&mut d, &mut mock(vec![]), &o);
    assert_eq!(stats.ocred, 0);
    o.target = OutputTarget::DocLang;
    let mut m = mock(vec![Ok("in a cell".into())]);
    let mut d = doc(vec![table()]);
    let stats = run(&mut d, &mut m, &o);
    assert_eq!(stats.ocred, 1);
    assert_eq!(m.calls, 1);
}

#[test]
fn outputs_show_their_own_layers() {
    let wrapped = |layer: ContentLayer| {
        doc(vec![Node::Furniture { layer, inner: Box::new(picture(100, 100)) }])
    };
    for (target, layer, read) in [
        (OutputTarget::Markdown, ContentLayer::Notes, false),
        (OutputTarget::Chunks, ContentLayer::Notes, false),
        (OutputTarget::Json, ContentLayer::Notes, true),
        (OutputTarget::Json, ContentLayer::Furniture, false),
        (OutputTarget::Json, ContentLayer::Invisible, false),
        (OutputTarget::DocLang, ContentLayer::Invisible, true),
    ] {
        let mut o = opts(OutputMode::Text);
        o.target = target;
        let d = wrapped(layer);
        assert_eq!(images_to_read(&d, &[], &o).len(), usize::from(read), "{target:?} {layer:?}");
    }
    for (target, read) in [
        (OutputTarget::Markdown, false),
        (OutputTarget::Chunks, false),
        (OutputTarget::Json, true),
        (OutputTarget::DocLang, true),
    ] {
        let mut o = opts(OutputMode::Text);
        o.target = target;
        let layer = Some(ContentLayer::Invisible);
        let d = doc(vec![Node::Group { key: 0, layer, children: vec![picture(100, 100)] }]);
        assert_eq!(images_to_read(&d, &[], &o).len(), usize::from(read), "{target:?}");
    }
    let d = doc(vec![Node::DoclangOnly(Box::new(picture(100, 100)))]);
    let mut o = opts(OutputMode::Text);
    o.target = OutputTarget::Json;
    assert!(images_to_read(&d, &[], &o).is_empty());
    o.target = OutputTarget::DocLang;
    assert_eq!(images_to_read(&d, &[], &o).len(), 1);
}

#[test]
fn picture_files_become_documents() {
    let mime = |name: &str, data: &[u8]| match &one_picture_document(name, data.to_vec(), true).nodes
        [0]
    {
        Node::Picture { image: Some(i), .. } => (i.mimetype.clone(), i.width, i.height),
        other => panic!("{other:?}"),
    };
    assert_eq!(mime("a.bin", b"\xff\xd8\xff"), ("image/jpeg".to_string(), 0, 0));
    assert_eq!(mime("a.bin", b"GIF89a").0, "image/gif");
    assert_eq!(mime("a.bin", b"BM").0, "image/bmp");
    assert_eq!(mime("a.bin", b"MM\0*").0, "image/tiff");
    assert_eq!(mime("a.bin", b"RIFF....WEBP").0, "image/webp");
    assert_eq!(mime("a.JPG", b"").0, "image/jpeg");
    assert_eq!(mime("a.tif", b"").0, "image/tiff");
    assert_eq!(mime("a", b"").0, "image/png");
    let d = one_picture_document("dir/photo.png", vec![1], true);
    assert_eq!(d.name, "photo");
    assert!(d.strict_markdown);
    let d = picture_document("..", vec![1], false, (3, 4));
    assert_eq!(d.name, "..");
}

#[test]
fn picture_sizes_are_read_from_the_file() {
    let mut png = std::io::Cursor::new(Vec::new());
    image::RgbImage::from_pixel(7, 5, image::Rgb([1, 2, 3]))
        .write_to(&mut png, image::ImageFormat::Png)
        .unwrap();
    let d = one_picture_document("a.png", png.into_inner(), false);
    match &d.nodes[0] {
        Node::Picture { image: Some(i), .. } => assert_eq!((i.width, i.height), (7, 5)),
        other => panic!("{other:?}"),
    }
}
