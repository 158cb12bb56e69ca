use mandel_trace::{PixelBuffer, RenderError};

fn px(b: &[u8], width: usize, x: usize, y: usize) -> [u8; 4] {
    let o = (y * width + x) * 4;
    [b[o], b[o + 1], b[o + 2], b[o + 3]]
}

#[test]
fn new_buffer_is_zeroed() {
    let b = PixelBuffer::new(3, 2).unwrap();
    assert_eq!(b.width(), 3);
    assert_eq!(b.height(), 2);
    assert_eq!(b.as_bytes().len(), 24);
    assert!(b.as_bytes().iter().all(|&v| v == 0));
}

#[test]
fn new_buffer_refuses_empty_side() {
    assert_eq!(PixelBuffer::new(0, 5).err(), Some(RenderError::DegenerateViewport));
    assert_eq!(PixelBuffer::new(5, 0).err(), Some(RenderError::DegenerateViewport));
    assert_eq!(PixelBuffer::new(0, 0).err(), Some(RenderError::DegenerateViewport));
}

#[test]
fn fill_rect_sets_range_and_nothing_else() {
    let mut b = PixelBuffer::new(5, 4).unwrap();
    b.fill_rect(1, 1, 3, 2, [10, 20, 30]);
    let bytes = b.into_bytes();
    assert_eq!(bytes.len(), 80);
    for y in 0..4 {
        for x in 0..5 {
            let inside = (1..=3).contains(&x) && (1..=2).contains(&y);
            let want = if inside { [10, 20, 30, 255] } else { [0, 0, 0, 0] };
            assert_eq!(px(&bytes, 5, x, y), want, "pixel ({}, {})", x, y);
        }
    }
}

#[test]
fn fill_rect_single_pixel() {
    let mut b = PixelBuffer::new(3, 3).unwrap();
    b.fill_rect(2, 0, 2, 0, [1, 2, 3]);
    let bytes = b.as_bytes();
    assert_eq!(px(bytes, 3, 2, 0), [1, 2, 3, 255]);
    let written = bytes.chunks(4).filter(|p| p[3] == 255).count();
    assert_eq!(written, 1);
}

#[test]
fn fill_rect_whole_image_then_overwrite() {
    let mut b = PixelBuffer::new(4, 4).unwrap();
    b.fill_rect(0, 0, 3, 3, [9, 9, 9]);
    b.fill_rect(0, 3, 3, 3, [7, 8, 6]);
    let bytes = b.as_bytes();
    for x in 0..4 {
        assert_eq!(px(bytes, 4, x, 2), [9, 9, 9, 255]);
        assert_eq!(px(bytes, 4, x, 3), [7, 8, 6, 255]);
    }
}

#[test]
fn put_pixel_writes_offset_of_row_major_layout() {
    let mut b = PixelBuffer::new(4, 3).unwrap();
    b.put_pixel(1, 2, [5, 6, 7]);
    let bytes = b.as_bytes();
    assert_eq!(&bytes[(2 * 4 + 1) * 4..(2 * 4 + 1) * 4 + 4], &[5, 6, 7, 255]);
}
