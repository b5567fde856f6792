use docling_core::tree as core_tree;
use docmill::converted::{apply, images_to_read, one_picture_document, Document};
use docmill::document::{ContentLayer, PictureImage};
use docmill::engine::{OcrFailure, OcrOutcome, OcrText};
use docmill::postprocess::{OcrStats, OutputMode, OutputTarget, PostOptions};
use docmill::tree::{order_of, ItemTree, TreeItem, TreeKind, TreeProv};

fn text(value: &str) -> core_tree::TreeKind {
    core_tree::TreeKind::Text {
        label: "caption".into(),
        text: value.into(),
        orig: None,
        formatting: None,
        hyperlink: Some("https://example.com/caption".into()),
        level: None,
        list: None,
    }
}

fn fixture() -> (core_tree::ItemTree, usize, usize, usize) {
    let mut tree = core_tree::ItemTree::default();
    let heading = tree.add(
        None,
        None,
        core_tree::TreeKind::Text {
            label: "section_header".into(),
            text: "Heading".into(),
            orig: None,
            formatting: None,
            hyperlink: None,
            level: Some(2),
            list: None,
        },
    );
    let pic = tree.add(
        Some(heading),
        Some(docling_core::ContentLayer::Notes),
        core_tree::TreeKind::Picture {
            image: Some(docling_core::PictureImage {
                mimetype: "image/png".into(),
                width: 100,
                height: 100,
                data: vec![1],
            }),
            captions: vec![],
            classification: None,
            confidence: None,
            chart: None,
            dpi: Some(96),
        },
    );
    let caption =
        tree.add(Some(pic), Some(docling_core::ContentLayer::Notes), text("Caption"));
    if let core_tree::TreeKind::Picture { captions, .. } = &mut tree.items[pic].kind {
        captions.push(caption);
    }
    tree.items[pic].prov = Some(core_tree::TreeProv {
        page_no: 1,
        bbox: [10.0, 20.0, 90.0, 80.0],
        bottom_left: false,
        charspan: [0, 0],
    });
    let comment = tree.add(None, Some(docling_core::ContentLayer::Notes), text("Comment"));
    tree.items[pic].comments.push(comment);
    tree.add(Some(heading), None, text("After"));
    (tree, heading, pic, caption)
}

fn layer(l: &docling_core::ContentLayer) -> ContentLayer {
    match l {
        docling_core::ContentLayer::Furniture => ContentLayer::Furniture,
        docling_core::ContentLayer::Notes => ContentLayer::Notes,
        _ => ContentLayer::Invisible,
    }
}

/// What picture OCR reads of the tree.
fn taken(tree: &core_tree::ItemTree) -> ItemTree {
    let items = tree
        .items
        .iter()
        .enumerate()
        .map(|(i, item)| TreeItem {
            parent: item.parent,
            children: item.children.clone(),
            layer: item.layer.as_ref().map(layer),
            kind: match &item.kind {
                core_tree::TreeKind::Picture { image, .. } => TreeKind::Picture {
                    key: i as u64,
                    image: image.as_ref().map(|p| PictureImage {
                        mimetype: p.mimetype.clone(),
                        width: p.width,
                        height: p.height,
                        data: p.data.clone(),
                    }),
                },
                core_tree::TreeKind::Table { table, .. } => {
                    TreeKind::Table { key: i as u64, rows: table.rows.clone() }
                }
                _ => TreeKind::Other { key: i as u64 },
            },
            prov: item.prov.as_ref().map(|p| TreeProv {
                page_no: p.page_no,
                bbox: p.bbox.map(f64::to_bits),
                bottom_left: p.bottom_left,
                charspan: p.charspan,
            }),
            comments: item.comments.clone(),
            source: item.source.as_ref().map(|_| i as u64),
            deleted: item.deleted,
        })
        .collect();
    ItemTree { items, body: tree.body.clone() }
}

/// The tree that is exported.
fn given_back(before: &core_tree::ItemTree, after: &ItemTree) -> core_tree::ItemTree {
    let mut tree = before.clone();
    tree.body = after.body.clone();
    for (i, item) in after.items.iter().enumerate() {
        let kind = match (&item.kind, before.items.get(i)) {
            (_, Some(known)) => known.kind.clone(),
            (TreeKind::Text { text }, None) => core_tree::TreeKind::Text {
                label: "text".into(),
                text: text.clone(),
                orig: None,
                formatting: None,
                hyperlink: None,
                level: None,
                list: None,
            },
            (TreeKind::Code { text }, None) => core_tree::TreeKind::Code {
                text: text.clone(),
                language: None,
                orig: None,
                formatting: None,
                hyperlink: None,
            },
            (other, None) => panic!("{other:?}"),
        };
        let out = core_tree::TreeItem {
            parent: item.parent,
            children: item.children.clone(),
            layer: item.layer.map(layer_out),
            kind,
            prov: item.prov.map(|p| core_tree::TreeProv {
                page_no: p.page_no,
                bbox: p.bbox.map(f64::from_bits),
                bottom_left: p.bottom_left,
                charspan: p.charspan,
            }),
            comments: item.comments.clone(),
            source: item.source.and_then(|k| before.items[k as usize].source.clone()),
            deleted: item.deleted,
        };
        if i < tree.items.len() {
            tree.items[i] = out;
        } else {
            tree.items.push(out);
        }
    }
    tree
}

fn layer_out(l: ContentLayer) -> docling_core::ContentLayer {
    match l {
        ContentLayer::Furniture => docling_core::ContentLayer::Furniture,
        ContentLayer::Notes => docling_core::ContentLayer::Notes,
        ContentLayer::Invisible => docling_core::ContentLayer::Invisible,
    }
}

fn options(keep: bool) -> PostOptions {
    PostOptions {
        target: OutputTarget::Json,
        mode: OutputMode::Text,
        keep_picture: keep,
        min_pixels: 0,
    }
}

fn assert_references(value: &serde_json::Value, root: &serde_json::Value) {
    match value {
        serde_json::Value::Object(map) => {
            if let Some(reference) = map.get("$ref").and_then(|v| v.as_str()) {
                assert!(
                    root.pointer(reference.strip_prefix('#').unwrap()).is_some(),
                    "dangling {reference}"
                );
            }
            for value in map.values() {
                assert_references(value, root);
            }
        }
        serde_json::Value::Array(values) => {
            for value in values {
                assert_references(value, root);
            }
        }
        _ => {}
    }
}

/// Read every image with the answers that are given.
fn run(
    doc: &mut Document,
    responses: &mut Vec<Result<String, OcrFailure>>,
    opts: &PostOptions,
) -> (OcrStats, usize) {
    let n = images_to_read(doc, &[], opts).len();
    let outcomes: Vec<Option<OcrOutcome>> = (0..n)
        .map(|_| {
            let text = responses.remove(0).ok()?;
            Some(OcrOutcome::fresh("mock", OcrText::plain(text), 0).0)
        })
        .collect();
    (apply(doc, &[], opts, &outcomes), n)
}

#[test]
fn json_ocr_preserves_hierarchy_caption_links_comments_and_provenance() {
    let (core, heading, picture, caption) = fixture();
    let mut doc = one_picture_document("fixture.png", vec![2], false);
    let original_nodes = one_picture_document("fixture.png", vec![2], false).nodes;
    doc.tree = Some(taken(&core));
    let (stats, calls) =
        run(&mut doc, &mut vec![Ok("Čitljiv tekst".into())], &options(false));
    assert_eq!(stats.ocred, 1);
    assert_eq!(calls, 1);
    assert_eq!(
        doc.nodes, original_nodes,
        "JSON processing must not traverse the duplicate flat picture"
    );
    let tree = doc.tree.as_ref().unwrap();
    assert!(tree.items[picture].deleted);
    assert_eq!(tree.items[caption].parent, Some(heading));
    let children = &tree.items[heading].children;
    assert_eq!(children[0], caption);
    let inserted = &tree.items[children[1]];
    assert_eq!(inserted.layer, Some(ContentLayer::Notes));
    assert_eq!(inserted.prov.as_ref().unwrap().charspan, [0, 13]);
    assert_eq!(inserted.comments.len(), 1);
    let mut exported = docling_core::DoclingDocument::new(doc.name.clone());
    exported.tree = Some(given_back(&core, tree));
    let json: serde_json::Value = serde_json::from_str(&exported.export_to_json()).unwrap();
    assert_references(&json, &json);
    assert!(json["texts"]
        .as_array()
        .unwrap()
        .iter()
        .any(|t| t["text"] == "Caption" && t["hyperlink"] == "https://example.com/caption"));
    assert!(json["texts"].as_array().unwrap().iter().any(|t| t["text"] == "Čitljiv tekst"));
}

#[test]
fn retained_images_empty_results_and_failures_keep_the_right_items() {
    for (keep, result, removed, ocred) in [
        (true, Ok("OCR".into()), false, 1),
        (false, Ok(String::new()), true, 0),
        (true, Ok(String::new()), false, 0),
        (false, Err(OcrFailure::Image("bad image".into())), false, 0),
    ] {
        let (core, heading, picture, caption) = fixture();
        let mut doc = one_picture_document("fixture.png", vec![2], false);
        doc.tree = Some(taken(&core));
        let (stats, _) = run(&mut doc, &mut vec![result], &options(keep));
        let tree = doc.tree.as_ref().unwrap();
        assert_eq!(stats.ocred, ocred);
        assert_eq!(tree.items[picture].deleted, removed);
        assert!(!tree.items[caption].deleted);
        if keep && ocred == 1 {
            assert_eq!(tree.items[heading].children[0], picture);
        }
    }
}

#[test]
fn tables_inside_a_picture_suppress_it() {
    let (core, _, picture, _) = fixture();
    let mut doc = one_picture_document("fixture.png", vec![2], false);
    let mut tree = taken(&core);
    let prov = tree.items[picture].prov;
    let id = tree.items.len();
    tree.items.push(TreeItem {
        parent: None,
        children: Vec::new(),
        layer: None,
        kind: TreeKind::Table { key: 9, rows: vec![vec!["cell".into()]] },
        prov,
        comments: Vec::new(),
        source: None,
        deleted: false,
    });
    tree.body.push(id);
    doc.tree = Some(tree);
    let covers = [(picture, id)];
    assert!(images_to_read(&doc, &covers, &options(false)).is_empty());
    let stats = apply(&mut doc, &covers, &options(false), &[]);
    assert_eq!((stats.pictures, stats.skipped_structured), (1, 1));
    assert_eq!(images_to_read(&doc, &[], &options(false)).len(), 1);
}

#[test]
fn reading_order_follows_children() {
    let (core, heading, picture, caption) = fixture();
    let order = order_of(&taken(&core));
    assert_eq!(&order[..3], &[heading, picture, caption]);
    assert_eq!(order.len(), 5);
}

#[test]
fn only_the_exported_representation_changes() {
    let (core, ..) = fixture();
    let mut doc = one_picture_document("fixture.png", vec![2], false);
    doc.tree = Some(taken(&core));
    let mut opts = options(false);
    opts.target = OutputTarget::Markdown;
    run(&mut doc, &mut vec![Ok("flat".into())], &opts);
    assert_eq!(doc.tree, Some(taken(&core)));
}

#[test]
fn inconsistent_trees_are_recognised() {
    let (core, heading, picture, _) = fixture();
    let tree = taken(&core);
    assert!(tree.is_well_formed());
    let mut twice = taken(&core);
    twice.body.push(heading);
    assert!(!twice.is_well_formed());
    let mut lost = taken(&core);
    lost.items[heading].children.retain(|c| *c != picture);
    assert!(!lost.is_well_formed());
    let mut stranger = taken(&core);
    stranger.items[picture].parent = None;
    assert!(!stranger.is_well_formed());
    let mut dangling = taken(&core);
    dangling.body.push(99);
    assert!(!dangling.is_well_formed());
    let mut dead = taken(&core);
    dead.items[picture].deleted = true;
    assert!(!dead.is_well_formed());
    assert!(ItemTree::new().is_well_formed());
}

#[test]
fn real_html_tree_receives_ocr_instead_of_only_its_flat_nodes() {
    let html = br#"<h1>Section</h1><p>Before</p><img alt="Caption" src="data:image/png;base64,iVBORw0KGgoAAAANSUhEUgAAAAEAAAABCAYAAAAfFcSJAAAADUlEQVQImWNgYGBgAAAABQABpfZFQAAAAABJRU5ErkJggg=="><p>After</p>"#;
    let mut exported = docling::DocumentConverter::new()
        .fetch_images(true)
        .convert(docling::SourceDocument::from_bytes(
            "test.html",
            docling::InputFormat::Html,
            html.to_vec(),
        ))
        .unwrap()
        .document;
    let core = exported.tree.take().unwrap();
    let mut doc = one_picture_document("test.html", vec![2], false);
    let tree = taken(&core);
    assert!(tree.is_well_formed());
    doc.tree = Some(tree);
    let (stats, _) = run(&mut doc, &mut vec![Ok("Picture words".into())], &options(false));
    assert_eq!(stats.ocred, 1);
    exported.tree = Some(given_back(&core, doc.tree.as_ref().unwrap()));
    let json: serde_json::Value = serde_json::from_str(&exported.export_to_json()).unwrap();
    assert_references(&json, &json);
    assert!(json["texts"].as_array().unwrap().iter().any(|t| t["text"] == "Picture words"));
}
