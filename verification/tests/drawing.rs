use swaybg_tui::render::{preview_layout, render_rows, PreviewImage};

#[test]
fn layout_of_a_terminal() {
    let l = preview_layout(100, 40);
    assert_eq!(l.preview_width, 60);
    assert_eq!(l.preview_height, 37);
    assert_eq!(l.max_w, 56);
    assert_eq!(l.max_h, 62);
    assert_eq!(l.start_x, 41);
    assert_eq!(l.start_y, 4);
    assert_eq!(l.avail_w, 58);
    assert_eq!(l.avail_h, 32);
    let tiny = preview_layout(3, 2);
    assert_eq!(tiny.preview_width, 1);
    assert_eq!(tiny.preview_height, 0);
    assert_eq!(tiny.max_w, 0);
    assert_eq!(tiny.max_h, 0);
    assert_eq!(tiny.avail_w, 0);
    assert_eq!(tiny.avail_h, 0);
}

fn cell(t: (u8, u8, u8), b: (u8, u8, u8)) -> String {
    format!("\x1b[38;2;{};{};{}m\x1b[48;2;{};{};{}m▀\x1b[0m", t.0, t.1, t.2, b.0, b.1, b.2)
}

#[test]
fn renders_half_blocks() {
    // 2 x 3 image
    let img = PreviewImage {
        width: 2,
        height: 3,
        pixels: vec![1, 2, 3, 4, 5, 6, 7, 8, 9, 10, 11, 12, 255, 0, 100, 99, 250, 0],
    };
    let rows = render_rows(&img, 10, 5, 8, 6);
    assert_eq!(rows.len(), 2);
    // pad_top = (6 - 2) / 2 = 2, pad_left = (8 - 2) / 2 = 3
    assert_eq!((rows[0].col, rows[0].row), (13, 7));
    assert_eq!((rows[1].col, rows[1].row), (13, 8));
    assert_eq!(rows[0].text, cell((1, 2, 3), (7, 8, 9)) + &cell((4, 5, 6), (10, 11, 12)));
    assert_eq!(rows[1].text, cell((255, 0, 100), (255, 0, 100)) + &cell((99, 250, 0), (99, 250, 0)));
}

#[test]
fn renders_larger_than_area() {
    let img = PreviewImage { width: 5, height: 2, pixels: vec![0; 30] };
    let rows = render_rows(&img, 0, 0, 2, 0);
    assert_eq!(rows.len(), 1);
    assert_eq!((rows[0].col, rows[0].row), (0, 0));
    assert_eq!(rows[0].text, cell((0, 0, 0), (0, 0, 0)).repeat(5));
    let empty = PreviewImage { width: 0, height: 0, pixels: vec![] };
    assert!(render_rows(&empty, 1, 1, 1, 1).is_empty());
}
