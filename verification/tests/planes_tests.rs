use video_player::planes::{copy_yv12_planes, Yv12Layout};

fn layout(pitch: usize, y_stride: usize, u_stride: usize, v_stride: usize, height: usize) -> Yv12Layout {
    Yv12Layout { pitch, y_stride, u_stride, v_stride, height }
}

#[test]
fn packed_planes_fill_the_buffer_in_order() {
    // Chroma rows are cut at half the pitch: here one U byte and one V byte.
    let l = layout(4, 4, 1, 1, 2);
    let y: Vec<u8> = (1..=8).collect();
    let u = vec![10u8];
    let v = vec![20u8];
    let mut buf = vec![0u8; 12];
    assert!(l.check_fits(buf.len(), y.len(), u.len(), v.len()));
    copy_yv12_planes(&mut buf, &l, &y, &u, &v);
    assert_eq!(buf, vec![1, 2, 3, 4, 5, 6, 7, 8, 10, 20, 0, 0]);
}

#[test]
fn chroma_rows_start_where_the_luma_strides_end() {
    // Luma rows advance the chroma offset by the Y stride, not the pitch, so
    // the chroma rows overwrite the tail of the last luma row.
    let l = layout(6, 4, 2, 1, 2);
    let y = vec![1u8, 2, 3, 4, 5, 6, 7, 8];
    let u = vec![10u8, 11];
    let v = vec![20u8];
    let mut buf = vec![0u8; 16];
    assert!(l.check_fits(buf.len(), y.len(), u.len(), v.len()));
    copy_yv12_planes(&mut buf, &l, &y, &u, &v);
    assert_eq!(buf, vec![1, 2, 3, 4, 0, 0, 5, 6, 10, 11, 20, 0, 0, 0, 0, 0]);
}

#[test]
fn rows_beyond_the_buffer_are_not_copied() {
    // Three frame rows but room for two buffer rows: only two Y rows are copied.
    let l = layout(2, 2, 1, 0, 3);
    let y = vec![1u8, 2, 3, 4, 5, 6];
    let u = vec![9u8];
    let v: Vec<u8> = vec![];
    let mut buf = vec![0u8; 4];
    assert!(l.check_fits(buf.len(), y.len(), u.len(), v.len()));
    copy_yv12_planes(&mut buf, &l, &y, &u, &v);
    assert_eq!(buf, vec![1, 2, 3, 4]);
}

#[test]
fn empty_buffer_is_left_as_is() {
    let l = layout(4, 4, 2, 2, 2);
    let mut buf: Vec<u8> = vec![];
    assert!(l.check_fits(0, 0, 0, 0));
    copy_yv12_planes(&mut buf, &l, &[], &[], &[]);
    assert!(buf.is_empty());
}

#[test]
fn pitch_below_two_does_not_fit() {
    assert!(!layout(1, 1, 0, 0, 0).check_fits(4, 4, 0, 0));
    assert!(!layout(0, 0, 0, 0, 0).check_fits(0, 0, 0, 0));
}

#[test]
fn short_y_plane_does_not_fit() {
    assert!(layout(4, 4, 1, 1, 2).check_fits(12, 8, 1, 1));
    assert!(!layout(4, 4, 1, 1, 2).check_fits(12, 7, 1, 1));
}

#[test]
fn y_stride_wider_than_pitch_does_not_fit() {
    assert!(!layout(4, 5, 1, 1, 2).check_fits(12, 10, 1, 1));
}

#[test]
fn y_stride_longer_than_last_chunk_does_not_fit() {
    assert!(layout(4, 2, 1, 1, 2).check_fits(2, 2, 1, 1));
    assert!(!layout(4, 3, 1, 1, 2).check_fits(2, 3, 1, 1));
}

#[test]
fn chroma_row_that_is_not_one_u_and_one_v_row_does_not_fit() {
    assert!(!layout(4, 4, 1, 2, 2).check_fits(12, 8, 1, 2));
    assert!(!layout(4, 4, 2, 1, 2).check_fits(12, 8, 2, 1));
    // An empty V row is one: the U row then fills the chroma row.
    assert!(layout(4, 4, 2, 0, 2).check_fits(12, 8, 2, 0));
    assert!(!layout(4, 4, 0, 1, 2).check_fits(12, 8, 0, 1));
    // A shorter last chroma chunk must still hold exactly one U and one V row.
    assert!(layout(4, 4, 1, 1, 2).check_fits(11, 8, 1, 1));
    assert!(!layout(4, 4, 1, 1, 2).check_fits(9, 8, 1, 1));
}

#[test]
fn short_chroma_planes_do_not_fit() {
    assert!(!layout(4, 4, 1, 1, 2).check_fits(12, 8, 0, 1));
    assert!(!layout(4, 4, 1, 1, 2).check_fits(12, 8, 1, 0));
}

#[test]
fn no_chroma_rows_for_a_single_row_frame() {
    // Half of one row is no chroma row: the planes U and V are not read.
    let l = layout(4, 4, 9, 9, 1);
    let y = vec![1u8, 2, 3, 4];
    let mut buf = vec![7u8; 8];
    assert!(l.check_fits(buf.len(), y.len(), 0, 0));
    copy_yv12_planes(&mut buf, &l, &y, &[], &[]);
    assert_eq!(buf, vec![1, 2, 3, 4, 7, 7, 7, 7]);
}
