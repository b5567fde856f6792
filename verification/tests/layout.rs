use docmill::layout::{self, sort_rows, MAX_COL};
use docmill::order::{order_by, Rows};

/// A recognised text with its box in pixels.
struct Span {
    text: String,
    l: f32,
    t: f32,
    r: f32,
    b: f32,
}

fn span(text: &str, l: f32, t: f32, r: f32, b: f32) -> Span {
    Span { text: text.into(), l, t, r, b }
}

/// A key that orders numbers as `f32::total_cmp` does.
fn rank(x: f32) -> i64 {
    let bits = x.to_bits() as i32;
    i64::from(bits ^ (((bits >> 31) as u32) >> 1) as i32)
}

fn median(values: &[f32]) -> f32 {
    let keys: Vec<i64> = values.iter().map(|v| rank(*v)).collect();
    let order = order_by(&(0..values.len()).collect(), &keys);
    values[order[order.len() / 2]]
}

fn grid(spans: &[Span]) -> String {
    let widths: Vec<f32> = spans
        .iter()
        .filter(|s| !s.text.is_empty())
        .map(|s| (s.r - s.l).max(1.0) / s.text.chars().count() as f32)
        .collect();
    if widths.is_empty() {
        return String::new();
    }
    let char_w = median(&widths).max(1.0);
    let heights: Vec<f32> = spans.iter().map(|s| (s.b - s.t).max(1.0)).collect();
    let line_h = median(&heights);
    let centre = |i: usize| (spans[i].t + spans[i].b) / 2.0;
    let centres: Vec<i64> = (0..spans.len()).map(|i| rank(centre(i))).collect();
    let mut rows = Rows::new();
    for i in order_by(&(0..spans.len()).collect(), &centres) {
        let near = rows.head().is_some_and(|h| {
            (centre(i) - centre(h)).abs() < (spans[h].b - spans[h].t) / 2.0
        });
        rows.push(i, near);
    }
    let lefts: Vec<i64> = spans.iter().map(|s| rank(s.l)).collect();
    let rows = sort_rows(&rows.rows, &lefts);
    let mut gaps = Vec::new();
    let mut bottom: Option<f32> = None;
    for row in &rows {
        gaps.push(bottom.is_some_and(|b| spans[row[0]].t - b > 1.6 * line_h));
        bottom = Some(row.iter().fold(f32::MIN, |m, i| m.max(spans[*i].b)));
    }
    let texts: Vec<String> = spans.iter().map(|s| s.text.clone()).collect();
    let cols: Vec<usize> = spans.iter().map(|s| (s.l / char_w).round() as usize).collect();
    layout::grid(&rows, &texts, &cols, &gaps)
}

#[test]
fn side_by_side_spans_share_a_line_with_spacing() {
    let spans = [
        span("Menu", 0.0, 0.0, 40.0, 12.0),
        span("Content", 300.0, 1.0, 370.0, 13.0),
        span("Below", 0.0, 30.0, 50.0, 42.0),
    ];
    let g = grid(&spans);
    let lines: Vec<&str> = g.lines().collect();
    assert_eq!(lines.len(), 2, "{g:?}");
    assert!(lines[0].starts_with("Menu"), "{g:?}");
    let col = lines[0].find("Content").unwrap();
    assert!((28..=32).contains(&col), "Content at ~col 30: {col} in {g:?}");
    assert_eq!(lines[1].trim(), "Below");
}

#[test]
fn big_vertical_gap_becomes_blank_line() {
    let spans = [
        span("Header", 0.0, 0.0, 60.0, 12.0),
        span("Footer", 0.0, 100.0, 60.0, 112.0),
    ];
    let g = grid(&spans);
    assert_eq!(g, "Header\n\nFooter", "{g:?}");
}

#[test]
fn colliding_estimates_keep_one_space_apart() {
    let spans = [
        span("LongLeftText", 0.0, 0.0, 120.0, 12.0),
        span("Right", 122.0, 0.0, 172.0, 12.0),
    ];
    let g = grid(&spans);
    assert!(g.contains("LongLeftText Right"), "{g:?}");
}

#[test]
fn indentation_is_relative_to_char_width() {
    let spans = [
        span("aaaaaaaaaa", 0.0, 0.0, 50.0, 10.0),
        span("indented", 50.0, 20.0, 90.0, 30.0),
    ];
    let g = grid(&spans);
    let line2 = g.lines().nth(1).unwrap();
    assert_eq!(line2.find("indented").unwrap(), 10, "{g:?}");
}

#[test]
fn empty_and_degenerate_input() {
    assert_eq!(grid(&[]), "");
    assert_eq!(grid(&[span("", 0.0, 0.0, 10.0, 10.0)]), "");
}

#[test]
fn far_right_box_is_capped() {
    let spans = [
        span("x", 0.0, 0.0, 8.0, 10.0),
        span("far", 100_000.0, 0.0, 100_024.0, 10.0),
    ];
    let g = grid(&spans);
    assert!(g.lines().next().unwrap().chars().count() <= MAX_COL + 3, "{g:?}");
}

#[test]
fn columns_and_gaps_place_texts_exactly() {
    let texts = vec!["a".to_string(), "b".to_string(), "c ".to_string()];
    let g = layout::grid(&vec![vec![0, 1], vec![2]], &texts, &vec![2, 1, 0], &vec![false, true]);
    assert_eq!(g, "  a b\n\nc");
}

#[test]
fn equal_keys_keep_their_order() {
    assert_eq!(order_by(&vec![0, 1, 2, 3], &vec![5, 1, 5, 1]), vec![1, 3, 0, 2]);
}

#[test]
fn ranks_order_numbers() {
    let values = [f32::MIN, -1.5, -0.0, 0.0, 0.25, 7.0, f32::MAX];
    for pair in values.windows(2) {
        assert!(rank(pair[0]) < rank(pair[1]), "{pair:?}");
    }
}
