use personal_site::pixels::{pack_rgba, red_channel};

#[test]
fn pack_rgba_interleaves_layers() {
    let out = pack_rgba(&[1, 2], &[3, 4], &[5, 6], &[7, 8]);
    assert_eq!(out, vec![1, 3, 5, 7, 2, 4, 6, 8]);
}

#[test]
fn pack_rgba_takes_length_from_first_layer() {
    let out = pack_rgba(&[9], &[10, 11], &[12, 13], &[14, 15, 16]);
    assert_eq!(out, vec![9, 10, 12, 14]);
    assert!(pack_rgba(&[], &[], &[], &[]).is_empty());
}

#[test]
fn red_channel_reads_every_fourth_byte() {
    let rgba = [10, 1, 2, 3, 20, 4, 5, 6, 30, 7, 8, 9];
    assert_eq!(red_channel(&rgba, 3), vec![10, 20, 30]);
    assert_eq!(red_channel(&rgba, 2), vec![10, 20]);
    assert_eq!(red_channel(&[42], 1), vec![42]);
    assert!(red_channel(&[], 0).is_empty());
}

#[test]
fn pack_then_read_back_red() {
    let nb = [3u8, 1, 4, 1, 5];
    let packed = pack_rgba(&nb, &[0; 5], &[0; 5], &[0; 5]);
    assert_eq!(red_channel(&packed, 5), nb.to_vec());
}
