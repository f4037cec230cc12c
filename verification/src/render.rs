use vstd::prelude::*;
use crate::text::{decimal, from_chars, push_decimal};

verus! {

/// A decoded, already scaled preview image: `width * height` pixels, row
/// by row, three bytes (red, green, blue) each.
#[derive(Clone, Debug)]
pub struct PreviewImage {
    pub width: u32,
    pub height: u32,
    pub pixels: Vec<u8>,
}

impl PreviewImage {
    /// The pixel buffer holds exactly `width * height` pixels.
    pub open spec fn wf(&self) -> bool {
        self.pixels.len() == self.width * self.height * 3
    }
}

/// `a - b`, or 0 when `b` is larger.
pub open spec fn sat_sub(a: int, b: int) -> int {
    if a >= b { a - b } else { 0 }
}

/// Where the preview goes in a terminal of the given size.
#[derive(Clone, Copy, Debug, PartialEq, Eq)]
pub struct PreviewLayout {
    /// Width of the preview pane
    pub preview_width: u16,
    /// Height of the preview pane
    pub preview_height: u16,
    /// Largest image width to scale to
    pub max_w: u32,
    /// Largest image height to scale to (two pixels per terminal row)
    pub max_h: u32,
    /// Column where the image area starts
    pub start_x: u16,
    /// Row where the image area starts
    pub start_y: u16,
    /// Columns available for the image
    pub avail_w: u16,
    /// Rows available for the image
    pub avail_h: u16,
}

/// The preview layout: the preview pane takes 60% of the width (after the
/// 40% file list) and all rows but the 3-row status bar; the image may use
/// the pane without its borders and header text.
pub fn preview_layout(width: u16, height: u16) -> (l: PreviewLayout)
    requires
        width * 60 <= u16::MAX,
    ensures
        l.preview_width == width * 60 / 100,
        l.preview_height == sat_sub(height as int, 3),
        l.max_w == sat_sub(l.preview_width as int, 4),
        l.max_h == sat_sub(l.preview_height as int, 6) * 2,
        l.start_x == width * 40 / 100 + 1,
        l.start_y == 4,
        l.avail_w == sat_sub(l.preview_width as int, 2),
        l.avail_h == sat_sub(l.preview_height as int, 5),
{
    let preview_width: u16 = (width * 60) / 100;
    let preview_height: u16 = height.saturating_sub(3);
    let max_w: u32 = preview_width.saturating_sub(4) as u32;
    let max_h: u32 = (preview_height.saturating_sub(6) as u32) * 2;
    let list_width: u16 = (width * 40) / 100;
    PreviewLayout {
        preview_width,
        preview_height,
        max_w,
        max_h,
        start_x: list_width + 1,
        start_y: 1 + 3,
        avail_w: preview_width.saturating_sub(2),
        avail_h: preview_height.saturating_sub(5),
    }
}

/// One terminal row of a rendered preview: where it starts and what to write.
#[derive(Clone, Debug)]
pub struct TermRow {
    pub col: u16,
    pub row: u16,
    pub text: String,
}

/// The colour of the pixel at `(x, y)`.
pub open spec fn pixel_at(px: Seq<u8>, w: nat, x: nat, y: nat) -> (u8, u8, u8) {
    let i: int = ((y * w + x) * 3) as int;
    (px[i], px[i + 1], px[i + 2])
}

/// A colour as `r;g;b` in decimal.
pub open spec fn rgb_text(c: (u8, u8, u8)) -> Seq<char> {
    decimal(c.0 as nat) + seq![';'] + decimal(c.1 as nat) + seq![';'] + decimal(c.2 as nat)
}

/// The ANSI text of one cell: the upper half block in the top colour, on a
/// background of the bottom colour, followed by a reset.
pub open spec fn cell_text(top: (u8, u8, u8), bot: (u8, u8, u8)) -> Seq<char> {
    seq!['\x1b', '[', '3', '8', ';', '2', ';'] + rgb_text(top)
        + seq!['m', '\x1b', '[', '4', '8', ';', '2', ';'] + rgb_text(bot)
        + seq!['m', '\u{2580}', '\x1b', '[', '0', 'm']
}

/// The cells of the first `n` columns of the terminal row showing image rows
/// `y` and `y + 1` (row `y` again below the image's last row).
pub open spec fn row_cells(px: Seq<u8>, w: nat, h: nat, y: nat, n: nat) -> Seq<char>
    decreases n,
{
    if n == 0 {
        Seq::empty()
    } else {
        let x = (n - 1) as nat;
        let top = pixel_at(px, w, x, y);
        let bot = if y + 1 < h { pixel_at(px, w, x, y + 1) } else { top };
        row_cells(px, w, h, y, x) + cell_text(top, bot)
    }
}

/// Rows of padding above the image, to centre it vertically.
pub open spec fn pad_top(h: u32, max_height: u16) -> int {
    sat_sub(max_height as int, (((h as int + 1) / 2) % 65536)) / 2
}

/// Columns of padding left of the image, to centre it horizontally.
pub open spec fn pad_left(w: u32, max_width: u16) -> int {
    sat_sub(max_width as int, (w as int) % 65536) / 2
}

fn push_chars(out: &mut Vec<char>, s: &[char])
    ensures
        final(out)@ == old(out)@ + s@,
{
    let mut i: usize = 0;
    let ghost start = out@;
    while i < s.len()
        invariant
            i <= s.len(),
            out@ == start + s@.take(i as int),
        decreases s.len() - i,
    {
        out.push(s[i]);
        assert(s@.take(i + 1) == s@.take(i as int).push(s@[i as int]));
        i = i + 1;
    }
    assert(s@.take(s.len() as int) == s@);
}

fn push_rgb(out: &mut Vec<char>, c: (u8, u8, u8))
    ensures
        final(out)@ == old(out)@ + rgb_text(c),
{
    let ghost start = out@;
    push_decimal(out, c.0 as usize);
    push_chars(out, &[';']);
    push_decimal(out, c.1 as usize);
    push_chars(out, &[';']);
    push_decimal(out, c.2 as usize);
    assert(out@ =~= start + rgb_text(c));
}

fn push_cell(out: &mut Vec<char>, top: (u8, u8, u8), bot: (u8, u8, u8))
    ensures
        final(out)@ == old(out)@ + cell_text(top, bot),
{
    let ghost start = out@;
    push_chars(out, &['\x1b', '[', '3', '8', ';', '2', ';']);
    push_rgb(out, top);
    push_chars(out, &['m', '\x1b', '[', '4', '8', ';', '2', ';']);
    push_rgb(out, bot);
    push_chars(out, &['m', '\u{2580}', '\x1b', '[', '0', 'm']);
    assert(out@ =~= start + cell_text(top, bot));
}

proof fn lemma_pixel_index(x: nat, y: nat, w: nat, h: nat)
    requires
        x < w,
        y < h,
    ensures
        (y * w + x) * 3 + 2 < w * h * 3,
{
    assert(y * w + x < w * h) by (nonlinear_arith)
        requires x < w, y < h;
}

/// Renders an image as terminal rows of half blocks, two image rows per
/// terminal row, centred in a `max_width` by `max_height` area whose top
/// left corner is `(start_x, start_y)`.
pub fn render_rows(img: &PreviewImage, start_x: u16, start_y: u16, max_width: u16, max_height: u16) -> (r: Vec<TermRow>)
    requires
        img.wf(),
        img.height < u32::MAX,
        img.height > 0 ==> start_x + pad_left(img.width, max_width) <= u16::MAX,
        img.height > 0 ==> start_y + pad_top(img.height, max_height)
            + (if (img.height - 1) / 2 < 65536 { (img.height - 1) / 2 } else { 65535 }) <= u16::MAX,
    ensures
        r@.len() == (img.height + 1) / 2,
        forall|k: int| 0 <= k < r@.len() ==> {
            &&& (#[trigger] r@[k]).col == start_x + pad_left(img.width, max_width)
            &&& r@[k].row == start_y + pad_top(img.height, max_height) + k % 65536
            &&& r@[k].text@ == row_cells(img.pixels@, img.width as nat, img.height as nat, (2 * k) as nat, img.width as nat)
        },
{
    let w = img.width;
    let h = img.height;
    let img_rows: u32 = (h + 1) / 2;
    let ptop: u16 = max_height.saturating_sub(img_rows as u16) / 2;
    let pleft: u16 = max_width.saturating_sub(w as u16) / 2;
    proof {
        assert((img_rows as u16) as int == (img_rows as int) % 65536) by (bit_vector);
        assert((w as u16) as int == (w as int) % 65536) by (bit_vector);
    }
    assert(ptop == pad_top(h, max_height));
    assert(pleft == pad_left(w, max_width));
    let mut rows: Vec<TermRow> = Vec::new();
    let mut y: u32 = 0;
    while y < h
        invariant
            w == img.width,
            h == img.height,
            h < u32::MAX,
            img.wf(),
            y % 2 == 0,
            y <= h + 1,
            y < h ==> rows@.len() * 2 == y,
            y >= h ==> rows@.len() == (h + 1) / 2,
            rows@.len() * 2 <= y,
            ptop == pad_top(h, max_height),
            pleft == pad_left(w, max_width),
            h > 0 ==> start_x + pleft <= u16::MAX,
            h > 0 ==> start_y + ptop + (if (h - 1) / 2 < 65536 { (h - 1) / 2 } else { 65535 }) <= u16::MAX,
            forall|k: int| 0 <= k < rows@.len() ==> {
                &&& (#[trigger] rows@[k]).col == start_x + pleft
                &&& rows@[k].row == start_y + ptop + k % 65536
                &&& rows@[k].text@ == row_cells(img.pixels@, w as nat, h as nat, (2 * k) as nat, w as nat)
            },
        decreases (h as int) + 1 - (y as int),
    {
        let k: u32 = y / 2;
        let ku: u16 = k as u16;
        proof {
            assert((k as u16) as int == (k as int) % 65536) by (bit_vector);
            assert(k as int % 65536 <= (if (h - 1) / 2 < 65536 { (h - 1) / 2 } else { 65535 }));
        }
        let row: u16 = start_y + ptop + ku;
        let col: u16 = start_x + pleft;
        let mut text: Vec<char> = Vec::new();
        let mut x: u32 = 0;
        while x < w
            invariant
                w == img.width,
                h == img.height,
                img.wf(),
                y < h,
                x <= w,
                text@ == row_cells(img.pixels@, w as nat, h as nat, y as nat, x as nat),
            decreases w - x,
        {
            proof {
                lemma_pixel_index(x as nat, y as nat, w as nat, h as nat);
            }
            let i: usize = ((y as usize) * (w as usize) + (x as usize)) * 3;
            let top = (img.pixels[i], img.pixels[i + 1], img.pixels[i + 2]);
            let bot = if y + 1 < h {
                proof {
                    lemma_pixel_index(x as nat, (y + 1) as nat, w as nat, h as nat);
                }
                let j: usize = (((y + 1) as usize) * (w as usize) + (x as usize)) * 3;
                (img.pixels[j], img.pixels[j + 1], img.pixels[j + 2])
            } else {
                top
            };
            push_cell(&mut text, top, bot);
            x = x + 1;
        }
        rows.push(TermRow { col, row, text: from_chars(&text) });
        y = y + 2;
    }
    rows
}

} // verus!
