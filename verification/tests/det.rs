use docmill::det::{self, components, order_boxes, unclip, DetBox};

/// The boxes of a map of probabilities.
fn det_boxes(prob: &[f32], w: usize, h: usize) -> Vec<DetBox> {
    let marks: Vec<bool> = prob.iter().map(|p| *p > 0.3).collect();
    let groups = components(&marks, w, h);
    let strong: Vec<bool> = groups
        .iter()
        .map(|c| {
            let sum: f32 = c.pixels.iter().map(|i| prob[*i]).sum();
            sum / c.pixels.len() as f32 >= 0.6
        })
        .collect();
    det::det_boxes(&groups, &strong, w as u32, h as u32)
}

/// Two strong groups on one row and one on the next.
fn map_3blobs(w: usize, h: usize) -> Vec<f32> {
    let mut p = vec![0f32; w * h];
    let mut blob = |x0: usize, y0: usize, x1: usize, y1: usize| {
        for y in y0..y1 {
            for x in x0..x1 {
                p[y * w + x] = 0.9;
            }
        }
    };
    blob(50, 10, 90, 20);
    blob(5, 10, 40, 20);
    blob(5, 40, 60, 52);
    p
}

#[test]
fn finds_scores_and_unclips_components() {
    let (w, h) = (100, 60);
    let mut boxes = det_boxes(&map_3blobs(w, h), w, h);
    assert_eq!(boxes.len(), 3);
    order_boxes(&mut boxes);
    assert!(boxes[0].0 < boxes[1].0 && boxes[0].1 == boxes[1].1);
    assert!(boxes[2].1 > boxes[0].1);
    let (l, t, r, b) = boxes[0];
    assert!(l < 5 && t < 10 && r > 40 && b > 20, "unclipped: {boxes:?}");
}

#[test]
fn weak_and_tiny_blobs_are_dropped() {
    let (w, h) = (64, 64);
    let mut p = vec![0f32; w * h];
    for y in 2..4 {
        for x in 2..4 {
            p[y * w + x] = 0.95;
        }
    }
    for y in 20..30 {
        for x in 10..50 {
            p[y * w + x] = 0.4;
        }
    }
    assert!(det_boxes(&p, w, h).is_empty());
}

#[test]
fn growth_is_the_rounded_offset() {
    for bw in 1u32..60 {
        for bh in 1u32..60 {
            let (fw, fh) = (bw as f32, bh as f32);
            let d = (fw * fh * 1.5 / (2.0 * (fw + fh))).round() as u32;
            let got = unclip((100, 100, 100 + bw, 100 + bh), 1000, 1000);
            assert_eq!(got, (100 - d, 100 - d, 100 + bw + d, 100 + bh + d));
        }
    }
    assert_eq!(unclip((1, 1, 41, 21), 45, 25), (0, 0, 45, 25));
}

#[test]
fn groups_are_joined_by_their_sides_only() {
    let marks = [true, false, true, false, true, true, true, false, true];
    let groups = components(&marks, 3, 3);
    assert_eq!(groups.len(), 3);
    let joined = groups.iter().find(|c| c.pixels.len() == 4).unwrap();
    assert_eq!((joined.l, joined.t, joined.r, joined.b), (1, 0, 3, 3));
}
