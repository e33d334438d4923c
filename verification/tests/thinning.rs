use personal_site::thinning::zhang_suen;

fn grid(rows: &[&str]) -> Vec<u8> {
    rows.iter()
        .flat_map(|r| r.bytes().map(|b| if b == b'1' { 1u8 } else { 0u8 }))
        .collect()
}

#[test]
fn thick_bar_thins_to_a_line() {
    let mut g = grid(&["00000000", "01111110", "01111110", "01111110", "00000000"]);
    zhang_suen(&mut g, 8, 5);
    assert_eq!(g, grid(&["00000000", "00000000", "00111000", "00000000", "00000000"]));
}

#[test]
fn square_blob_thins_to_one_pixel() {
    let mut g = grid(&["00000", "01110", "01110", "01110", "00000"]);
    zhang_suen(&mut g, 5, 5);
    assert_eq!(g, grid(&["00000", "00000", "00100", "00000", "00000"]));
    let mut g = grid(&[
        "0000000", "0111110", "0111110", "0111110", "0111110", "0111110", "0000000",
    ]);
    zhang_suen(&mut g, 7, 7);
    assert_eq!(
        g,
        grid(&["0000000", "0000000", "0000000", "0001000", "0000000", "0000000", "0000000"])
    );
}

#[test]
fn staircase_thins() {
    let mut g = grid(&["000000", "011000", "001100", "000110", "000011", "000000"]);
    zhang_suen(&mut g, 6, 6);
    assert_eq!(g, grid(&["000000", "000000", "000000", "000000", "000011", "000000"]));
}

#[test]
fn thinning_is_idempotent() {
    let mut g = grid(&["00000000", "01111110", "01111110", "01111110", "00000000"]);
    zhang_suen(&mut g, 8, 5);
    let once = g.clone();
    zhang_suen(&mut g, 8, 5);
    assert_eq!(g, once);
}

#[test]
fn thinning_keeps_the_border_and_only_clears() {
    let mut g = vec![1u8; 20];
    zhang_suen(&mut g, 5, 4);
    assert_eq!(g, vec![1u8; 20]);
    let before = grid(&["11111", "11111", "11111", "11111", "11111"]);
    let mut g = before.clone();
    zhang_suen(&mut g, 5, 5);
    for i in 0..25 {
        let (x, y) = (i % 5, i / 5);
        if x == 0 || y == 0 || x == 4 || y == 4 {
            assert_eq!(g[i], before[i]);
        }
        assert!(g[i] <= before[i]);
    }
}

#[test]
fn thinning_small_and_empty_grids() {
    let mut g = vec![0u8; 12];
    zhang_suen(&mut g, 4, 3);
    assert_eq!(g, vec![0u8; 12]);
    let mut g = vec![1u8, 1, 1];
    zhang_suen(&mut g, 3, 1);
    assert_eq!(g, vec![1u8, 1, 1]);
    let mut g: Vec<u8> = vec![];
    zhang_suen(&mut g, 0, 2);
    assert!(g.is_empty());
}
