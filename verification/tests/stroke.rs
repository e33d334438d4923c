use personal_site::thinning::zhang_suen;
use personal_site::stroke::{
    background_mask, order_left_to_right, skeleton_components, stroke_trace, threshold_mask,
    StrokePoint,
};

fn raster(rows: &[&str]) -> Vec<u8> {
    rows.iter()
        .flat_map(|r| {
            r.bytes().map(|b| match b {
                b'#' => 255u8,
                b'+' => 100u8,
                _ => 0u8,
            })
        })
        .collect()
}

fn binary(rows: &[&str]) -> Vec<u8> {
    rows.iter()
        .flat_map(|r| r.bytes().map(|b| if b == b'1' { 1u8 } else { 0u8 }))
        .collect()
}

fn points(v: &[(usize, i32)]) -> Vec<StrokePoint> {
    v.iter()
        .map(|&(pixel, half_width_sq)| StrokePoint { pixel, half_width_sq })
        .collect()
}

#[test]
fn masks_split_at_the_ink_threshold() {
    let sharp = vec![0u8, 127, 128, 200, 255, 90];
    assert_eq!(threshold_mask(&sharp), vec![0, 0, 1, 1, 1, 0]);
    assert_eq!(background_mask(&sharp), vec![255, 255, 0, 0, 0, 255]);
    assert_eq!(threshold_mask(&[]), Vec::<u8>::new());
}

#[test]
fn pieces_are_found_in_scan_order() {
    let g = binary(&["1100", "0000", "0011", "0001"]);
    let comps = skeleton_components(&g, 4, 4);
    assert_eq!(comps, vec![vec![0, 1], vec![10, 15, 11]]);
    let g = binary(&["10001", "01010", "00100"]);
    let comps = skeleton_components(&g, 5, 3);
    assert_eq!(comps, vec![vec![0, 6, 12, 8, 4]]);
    assert!(skeleton_components(&binary(&["000", "000"]), 3, 2).is_empty());
}

#[test]
fn pieces_are_ordered_left_to_right() {
    // width 10: the piece found first sits further right
    let comps = vec![vec![7, 8], vec![21, 22], vec![33]];
    let out = order_left_to_right(comps, 10);
    assert_eq!(out, vec![vec![21, 22], vec![33], vec![7, 8]]);
    // equal leftmost columns keep their order
    let out = order_left_to_right(vec![vec![2], vec![11], vec![12]], 10);
    assert_eq!(out, vec![vec![11], vec![2], vec![12]]);
}

#[test]
fn thick_bar_traces_left_to_right() {
    let sharp = raster(&[
        "..........",
        ".########.",
        ".########.",
        ".########.",
        "..........",
    ]);
    let out = stroke_trace(&sharp, 10, 5);
    assert_eq!(out, points(&[(22, 4), (23, 4), (24, 4), (25, 4), (26, 4)]));
}

#[test]
fn letters_are_traced_in_reading_order() {
    let sharp = raster(&[
        ".......####.",
        ".......####.",
        ".......####.",
        ".......####.",
        "............",
        ".######.....",
        ".######.....",
        ".######.....",
        "............",
    ]);
    let out = stroke_trace(&sharp, 12, 9);
    assert_eq!(
        out,
        points(&[(74, 4), (75, 4), (76, 4), (7, 1), (8, 4), (9, 4), (10, 1)])
    );
}

#[test]
fn junction_restarts_at_the_nearest_unvisited_pixel() {
    let sharp = raster(&[
        ".........",
        ".#######.",
        "....#....",
        "....#....",
        "....#....",
        ".........",
    ]);
    let out = stroke_trace(&sharp, 9, 6);
    let expected: Vec<(usize, i32)> = vec![10, 11, 12, 13, 14, 15, 16, 22, 31, 40]
        .into_iter()
        .map(|p| (p, 1))
        .collect();
    assert_eq!(out, points(&expected));
}

#[test]
fn closed_loop_is_walked_round() {
    let sharp = raster(&[
        "........",
        ".######.",
        ".#....#.",
        ".#....#.",
        ".######.",
        "........",
    ]);
    let out = stroke_trace(&sharp, 8, 6);
    let expected: Vec<(usize, i32)> = vec![9, 10, 11, 12, 13, 14, 22, 30, 38, 37, 36, 35, 34, 33, 25, 17]
        .into_iter()
        .map(|p| (p, 1))
        .collect();
    assert_eq!(out, points(&expected));
}

#[test]
fn vee_is_walked_from_its_left_end() {
    let sharp = raster(&[
        "..........",
        ".#......#.",
        "..#....#..",
        "...#..#...",
        "....##....",
        "..........",
    ]);
    let out = stroke_trace(&sharp, 10, 6);
    let expected: Vec<(usize, i32)> = vec![11, 22, 33, 44, 45, 36, 27, 18]
        .into_iter()
        .map(|p| (p, 1))
        .collect();
    assert_eq!(out, points(&expected));
}

#[test]
fn blob_thins_to_one_point_with_its_half_width() {
    let sharp = raster(&[
        ".........",
        "...###...",
        "...###...",
        ".#######.",
        ".#######.",
        ".#######.",
        "...###...",
        "...###...",
        ".........",
    ]);
    assert_eq!(stroke_trace(&sharp, 9, 9), points(&[(40, 8)]));
}

#[test]
fn faint_or_empty_raster_gives_no_path() {
    let sharp = raster(&["......", ".++++.", ".++++.", "......"]);
    assert!(stroke_trace(&sharp, 6, 4).is_empty());
    assert!(stroke_trace(&[0u8; 12], 4, 3).is_empty());
}

#[test]
fn trace_covers_the_skeleton_once() {
    let sharp = raster(&[
        "............",
        ".######..##.",
        ".######..##.",
        "....##...##.",
        "....##...##.",
        "............",
    ]);
    let (w, h) = (12usize, 6usize);
    let out = stroke_trace(&sharp, w, h);
    let mut skel = threshold_mask(&sharp);
    zhang_suen(&mut skel, w, h);
    let mut pixels: Vec<usize> = out.iter().map(|p| p.pixel).collect();
    pixels.sort();
    let before = pixels.len();
    pixels.dedup();
    assert_eq!(pixels.len(), before);
    let expected: Vec<usize> = (0..w * h).filter(|&i| skel[i] == 1).collect();
    assert_eq!(pixels, expected);
    assert!(!expected.is_empty());
    assert!(out.iter().all(|p| p.half_width_sq >= 1 && sharp[p.pixel] > 127));
}

#[test]
fn very_wide_raster_is_traced() {
    let w = 20000usize;
    let mut sharp = vec![0u8; w * 3];
    for x in 1..w - 1 {
        sharp[w + x] = 255;
    }
    let out = stroke_trace(&sharp, w, 3);
    let expected: Vec<(usize, i32)> = (1..w - 1).map(|x| (w + x, 1)).collect();
    assert_eq!(out, points(&expected));
}
