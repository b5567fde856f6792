use docmill::engine::{OcrFailure, OcrText};
use docmill::layout;
use docmill::order::{order_by, Rows};
use docmill::paddle::{self, has_layout, negotiate, PaddleNext, PaddleServer, PaddleSpan, Schema};
use docmill::remote::Reply;

fn rank(x: f32) -> i64 {
    let bits = x.to_bits() as i32;
    i64::from(bits ^ (((bits >> 31) as u32) >> 1) as i32)
}

type Bounds = (f32, f32, f32, f32);

fn bounds(span: &PaddleSpan) -> Option<Bounds> {
    let number = |s: &String| s.parse::<f64>().ok().map(|x| x as f32);
    if let Some(points) = &span.polygon {
        let (mut l, mut t, mut r, mut b) = (f32::MAX, f32::MAX, f32::MIN, f32::MIN);
        for (x, y) in points {
            let (x, y) = (number(x)?, number(y)?);
            l = l.min(x);
            t = t.min(y);
            r = r.max(x);
            b = b.max(y);
        }
        if r > l && b > t {
            return Some((l, t, r, b));
        }
    }
    let rect = span.rect.as_ref()?;
    Some((
        number(rect.first()?)?,
        number(rect.get(1)?)?,
        number(rect.get(2)?)?,
        number(rect.get(3)?)?,
    ))
}

fn grid(spans: &[PaddleSpan], places: &[Bounds]) -> String {
    let mut widths: Vec<f32> = Vec::new();
    for (s, p) in spans.iter().zip(places) {
        widths.push((p.2 - p.0).max(1.0) / s.text.chars().count() as f32);
    }
    widths.sort_by(|a, b| a.total_cmp(b));
    let char_w = widths[widths.len() / 2].max(1.0);
    let centre = |i: usize| (places[i].1 + places[i].3) / 2.0;
    let centres: Vec<i64> = (0..places.len()).map(|i| rank(centre(i))).collect();
    let mut rows = Rows::new();
    for i in order_by(&(0..places.len()).collect(), &centres) {
        let near = rows.head().is_some_and(|h| {
            (centre(i) - centre(h)).abs() < (places[h].3 - places[h].1) / 2.0
        });
        rows.push(i, near);
    }
    let lefts: Vec<i64> = places.iter().map(|p| rank(p.0)).collect();
    let rows = layout::sort_rows(&rows.rows, &lefts);
    let gaps = vec![false; rows.len()];
    let texts: Vec<String> = spans.iter().map(|s| s.text.clone()).collect();
    let cols: Vec<usize> = places.iter().map(|p| (p.0 / char_w).round() as usize).collect();
    layout::grid(&rows, &texts, &cols, &gaps)
}

fn parse_paddle_response(body: &str) -> Result<OcrText, String> {
    let read = paddle::parse_paddle_response(body)?;
    let places: Vec<Option<Bounds>> = read.spans.iter().map(bounds).collect();
    let placed: Vec<bool> = places.iter().map(Option::is_some).collect();
    let grid = if has_layout(&placed) {
        let places: Vec<Bounds> = places.into_iter().flatten().collect();
        Some(grid(&read.spans, &places))
    } else {
        None
    };
    Ok(OcrText { text: read.text, grid })
}

#[test]
fn parses_paddlehub_shape() {
    let body = r#"{"msg":"","results":[[
            {"confidence":0.99,"text":"INVOICE","text_region":[[1,1],[2,1],[2,2],[1,2]]},
            {"confidence":0.98,"text":"Total: $5","text_region":[[1,3],[2,3],[2,4],[1,4]]}
        ]],"status":"000"}"#;
    let out = parse_paddle_response(body).unwrap();
    assert_eq!(out.text, "INVOICE\nTotal: $5");
    assert!(out.grid.is_some(), "text_region present, grid rendered");
}

#[test]
fn parses_paddlehub_empty_result() {
    let body = r#"{"results":[[]],"status":"000"}"#;
    assert_eq!(parse_paddle_response(body).unwrap(), OcrText::plain(String::new()));
}

#[test]
fn parses_paddlex_shape() {
    let body = r#"{"logId":"x","result":{"ocrResults":[
            {"prunedResult":{"rec_texts":["Line A","Line B"],"rec_scores":[0.9,0.8]}}
        ]}}"#;
    let out = parse_paddle_response(body).unwrap();
    assert_eq!(out.text, "Line A\nLine B");
    assert_eq!(out.grid, None);
}

#[test]
fn paddlex_boxes_produce_a_grid() {
    let body = r#"{"result":{"ocrResults":[
            {"prunedResult":{"rec_texts":["Left","Right"],
                             "rec_boxes":[[0,0,40,12],[300,0,360,12]]}}
        ]}}"#;
    let out = parse_paddle_response(body).unwrap();
    assert_eq!(out.text, "Left\nRight");
    let grid = out.grid.expect("rec_boxes give a grid");
    assert_eq!(grid.lines().count(), 1, "{grid:?}");
    assert!(grid.starts_with("Left"), "{grid:?}");
    assert!(grid.find("Right").unwrap() > 10, "{grid:?}");
}

#[test]
fn scavenges_unknown_but_texty_shapes() {
    let body = r#"{"data":{"blocks":[{"text":"found me"},{"text":"me too"}]}}"#;
    assert_eq!(
        parse_paddle_response(body).unwrap(),
        OcrText::plain("found me\nme too".into())
    );
}

#[test]
fn rejects_shapes_with_no_text_at_all() {
    assert!(parse_paddle_response(r#"{"status":"ok"}"#).is_err());
    assert!(parse_paddle_response("not json").is_err());
}

#[test]
fn the_schema_changes_after_a_malformed_request_only() {
    let reply = |code: u16| Reply::Status { code, body: "no".to_string() };
    for code in [400, 422] {
        let next = negotiate("http://h", Schema::Hub, 0, 3, reply(code));
        assert!(matches!(next, PaddleNext::Switch { .. }), "{next:?}");
    }
    let next = negotiate("http://h", Schema::Hub, 0, 3, reply(404));
    assert!(matches!(next, PaddleNext::Fail { failure: OcrFailure::Engine(_) }), "{next:?}");
}

#[test]
fn payloads_hold_the_image_in_base64() {
    let image = b"bytes";
    for schema in [Schema::Hub, Schema::PaddleX { hub_status: 400 }] {
        let body = PaddleServer::payload(schema, image);
        assert!(body.contains("Ynl0ZXM="), "{body}");
        let value: serde_json::Value = serde_json::from_str(&body).unwrap();
        assert!(value.is_object());
    }
}

#[test]
fn the_endpoint_is_the_servers_identity() {
    let server = PaddleServer::new("http://h:8866".to_string(), 5).request_options(0);
    assert_eq!(server.cache_salt(), "grid|http://h:8866");
    assert_eq!(server.max_retries, 0);
}
