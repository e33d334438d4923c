use personal_site::distance::{edt8, FAR};

#[test]
fn edt8_single_row() {
    assert_eq!(edt8(&[255, 0, 0], 3, 1), vec![(0, 0), (-1, 0), (-2, 0)]);
}

#[test]
fn edt8_corner_seed() {
    let mask = [0, 0, 0, 0, 0, 0, 0, 0, 200];
    assert_eq!(
        edt8(&mask, 3, 3),
        vec![(2, 2), (1, 2), (0, 2), (2, 1), (1, 1), (0, 1), (2, 0), (1, 0), (0, 0)]
    );
}

#[test]
fn edt8_threshold_is_above_127() {
    let mask = [0, 128, 127, 0, 0, 0];
    assert_eq!(edt8(&mask, 3, 2), vec![(1, 0), (0, 0), (-1, 0), (1, -1), (0, -1), (-1, -1)]);
}

#[test]
fn edt8_empty_mask_keeps_far_offsets() {
    let out = edt8(&[0, 0, 0, 0], 2, 2);
    assert_eq!(out, vec![(FAR, FAR), (FAR - 1, FAR), (FAR, FAR - 1), (FAR - 1, FAR - 1)]);
}

#[test]
fn edt8_offsets_land_inside_and_zero_only_inside() {
    let (w, h) = (9usize, 7usize);
    let mut mask = vec![0u8; w * h];
    mask[2 * w + 3] = 255;
    mask[5 * w + 7] = 190;
    mask[6 * w] = 130;
    let out = edt8(&mask, w, h);
    assert_eq!(out.len(), w * h);
    for y in 0..h {
        for x in 0..w {
            let (dx, dy) = out[y * w + x];
            let tx = x as i32 + dx;
            let ty = y as i32 + dy;
            assert!(tx >= 0 && ty >= 0 && (tx as usize) < w && (ty as usize) < h);
            assert!(mask[ty as usize * w + tx as usize] > 127);
            assert_eq!((dx, dy) == (0, 0), mask[y * w + x] > 127);
        }
    }
}

#[test]
fn edt8_reads_only_the_grid() {
    let out = edt8(&[255, 0, 0, 255, 255], 3, 1);
    assert_eq!(out, vec![(0, 0), (-1, 0), (-2, 0)]);
    assert!(edt8(&[], 0, 0).is_empty());
}

#[test]
fn edt8_long_row_and_column() {
    let w = 30000usize;
    let mut mask = vec![0u8; w];
    mask[0] = 255;
    let row = edt8(&mask, w, 1);
    assert_eq!(row.len(), w);
    assert_eq!(row[1], (-1, 0));
    assert_eq!(row[23170], (-23170, 0));
    assert_eq!(row[23171], (FAR, FAR));
    assert_eq!(row[23172], (FAR - 1, FAR));
    assert_eq!(row[29999], (9556, FAR));
    let col = edt8(&mask, 1, w);
    assert_eq!(col[5], (0, -5));
    assert_eq!(col[23171], (FAR, FAR));
    assert_eq!(col[29999], (FAR, 9556));
}
