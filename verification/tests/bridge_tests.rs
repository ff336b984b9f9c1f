use carmine::bridge::pixmap_to_canvas_bgra;

#[test]
fn rgba_pixels_become_bgra() {
    let src = [1u8, 2, 3, 4, 5, 6, 7, 8];
    let mut buffer = [0u8; 8];
    pixmap_to_canvas_bgra(&src, &mut buffer, 2, 1);
    assert_eq!(buffer, [3, 2, 1, 4, 7, 6, 5, 8]);
    let mut back = [0u8; 8];
    pixmap_to_canvas_bgra(&buffer, &mut back, 2, 1);
    assert_eq!(back, src);
}

#[test]
fn mismatched_sizes_clear_the_buffer() {
    let src = [1u8, 2, 3, 4];
    let mut buffer = [9u8; 8];
    pixmap_to_canvas_bgra(&src, &mut buffer, 2, 1);
    assert_eq!(buffer, [0u8; 8]);
}
