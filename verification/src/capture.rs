//! Pictures of the screen and the text in them.

use vstd::prelude::*;
use vstd::string::*;
use image::{DynamicImage, RgbaImage};
use crate::search;
use crate::text;
use crate::windows;

verus! {

// ---- windows above the screen ----

/// Whether a window is one of those in which a part of the screen is chosen.
pub fn is_capture_window(label: &str) -> (out: bool)
    ensures
        out == text::begins(label@, "capture_"@),
{
    text::starts_with(label, "capture_")
}

/// Whether a window has to go away before a picture is taken: it is one of the program's own and
/// can be seen.
pub fn hides_for_capture(label: &str, visible: bool) -> (out: bool)
    ensures
        out == (visible && !text::begins(label@, "capture_"@)),
{
    visible && !is_capture_window(label)
}

/// The name of the window in which a part of a screen is chosen.
pub fn capture_label(index: usize) -> (out: String)
    ensures
        out@ == "capture_"@ + text::decimal(index as nat),
{
    text::concat2("capture_", text::dec_u64(index as u64).as_str())
}

// ---- pictures ----

/// Pixels as the system gives them, four bytes each, blue first, as they are stored, red first,
/// none of them see-through. What is left over of an unfinished pixel stays as it is.
pub open spec fn recoloured(p: Seq<u8>) -> Seq<u8> {
    Seq::new(
        p.len(),
        |i: int|
            if i / 4 * 4 + 4 > p.len() {
                p[i]
            } else if i % 4 == 0 {
                p[i + 2]
            } else if i % 4 == 2 {
                p[i - 2]
            } else if i % 4 == 3 {
                255u8
            } else {
                p[i]
            },
    )
}

/// Pixels as they are stored, from pixels as the system gives them.
pub fn bgra_to_rgba(pixels: &mut Vec<u8>)
    ensures
        final(pixels)@ == recoloured(old(pixels)@),
{
    let ghost p = pixels@;
    let n: usize = pixels.len() / 4;
    let mut k: usize = 0;
    while k < n
        invariant
            k <= n,
            n == p.len() / 4,
            pixels@.len() == p.len(),
            forall|i: int| 0 <= i < 4 * k ==> #[trigger] pixels@[i] == recoloured(p)[i],
            forall|i: int| 4 * k <= i < p.len() ==> #[trigger] pixels@[i] == p[i],
        decreases n - k,
    {
        assert(4 * k + 4 <= pixels.len());
        let b: u8 = pixels[4 * k];
        let r: u8 = pixels[4 * k + 2];
        pixels.set(4 * k, r);
        pixels.set(4 * k + 2, b);
        pixels.set(4 * k + 3, 255);
        k = k + 1;
    }
    assert(pixels@ =~= recoloured(p));
}

/// The lower of two numbers.
pub open spec fn lower(a: int, b: int) -> int {
    if a < b {
        a
    } else {
        b
    }
}

/// The part of a picture that begins `x` pixels from its left and `y` pixels from its top and is
/// `w` pixels wide and `h` pixels high, with its width and height. What would lie outside the
/// picture is left off. A pixel has four bytes; rows stand behind each other, from the top.
pub open spec fn cut_out(
    p: Seq<u8>,
    width: int,
    height: int,
    x: int,
    y: int,
    w: int,
    h: int,
) -> (Seq<u8>, int, int) {
    let x0 = lower(x, width);
    let y0 = lower(y, height);
    let w0 = lower(w, width - x0);
    let h0 = lower(h, height - y0);
    (
        Seq::new(
            (4 * w0 * h0) as nat,
            |i: int| p[4 * ((y0 + i / (4 * w0)) * width + x0) + i % (4 * w0)],
        ),
        w0,
        h0,
    )
}

/// `image::DynamicImage::crop`, on the picture that `image::RgbaImage::from_raw` makes of the
/// pixels, which are as many as it asks for; it fails where the bytes of a row cannot be counted.
/// The corner is moved into the picture, then the width and the height are cut down to what is
/// there.
#[verifier::external_body]
fn crop_pixels(pixels: Vec<u8>, width: u32, height: u32, x: u32, y: u32, w: u32, h: u32) -> (out: (
    Vec<u8>,
    u32,
    u32,
))
    requires
        pixels@.len() == 4 * width * height,
        4 * width <= usize::MAX,
    ensures
        (out.0@, out.1 as int, out.2 as int) == cut_out(
            pixels@,
            width as int,
            height as int,
            x as int,
            y as int,
            w as int,
            h as int,
        ),
{
    let picture: RgbaImage = RgbaImage::from_raw(width, height, pixels).unwrap();
    let part: RgbaImage = DynamicImage::ImageRgba8(picture).crop(x, y, w, h).into_rgba8();
    let (part_width, part_height) = part.dimensions();
    (part.into_raw(), part_width, part_height)
}

/// A number of pixels as it is read without a sign: one below zero lies beyond every picture.
pub open spec fn unsigned(n: i32) -> int {
    if n < 0 {
        n + 0x1_0000_0000
    } else {
        n as int
    }
}

fn without_sign(n: i32) -> (out: u32)
    ensures
        out == unsigned(n),
{
    assert(n < 0 ==> n as u32 == n + 0x1_0000_0000) by (bit_vector);
    assert(n >= 0 ==> n as u32 == n) by (bit_vector);
    n as u32
}

/// The chosen part of a picture, with its width and height.
pub fn crop_picture(
    pixels: Vec<u8>,
    width: u32,
    height: u32,
    x: i32,
    y: i32,
    w: i32,
    h: i32,
) -> (out: (Vec<u8>, u32, u32))
    requires
        pixels@.len() == 4 * width * height,
        4 * width <= usize::MAX,
    ensures
        (out.0@, out.1 as int, out.2 as int) == cut_out(
            pixels@,
            width as int,
            height as int,
            unsigned(x),
            unsigned(y),
            unsigned(w),
            unsigned(h),
        ),
{
    crop_pixels(
        pixels,
        width,
        height,
        without_sign(x),
        without_sign(y),
        without_sign(w),
        without_sign(h),
    )
}

/// Byte `c` of the pixel in column `i` and row `j` of a picture of the given width.
pub open spec fn pixel_byte(p: Seq<u8>, width: int, i: int, j: int, c: int) -> u8 {
    p[4 * (j * width + i) + c]
}

/// A part that lies within a picture is cut out whole: it has the width and height that were
/// chosen, and its pixels are those of the picture, counted from the chosen corner.
pub proof fn law_cut_out(
    p: Seq<u8>,
    width: int,
    height: int,
    x: int,
    y: int,
    w: int,
    h: int,
    i: int,
    j: int,
    c: int,
)
    requires
        p.len() == 4 * width * height,
        0 <= x && 0 <= y,
        x + w <= width,
        y + h <= height,
        0 <= i < w,
        0 <= j < h,
        0 <= c < 4,
    ensures
        cut_out(p, width, height, x, y, w, h).1 == w,
        cut_out(p, width, height, x, y, w, h).2 == h,
        cut_out(p, width, height, x, y, w, h).0.len() == 4 * w * h,
        pixel_byte(cut_out(p, width, height, x, y, w, h).0, w, i, j, c) == pixel_byte(
            p,
            width,
            x + i,
            y + j,
            c,
        ),
{
    let k = 4 * (j * w + i) + c;
    let row = 4 * w;
    let off = 4 * i + c;
    assert(k == j * row + off) by (nonlinear_arith)
        requires
            k == 4 * (j * w + i) + c,
            row == 4 * w,
            off == 4 * i + c,
    ;
    assert(0 <= k < 4 * w * h) by (nonlinear_arith)
        requires
            k == j * row + off,
            row == 4 * w,
            0 <= off < row,
            0 <= j < h,
    ;
    vstd::arithmetic::div_mod::lemma_fundamental_div_mod_converse(k, row, j, off);
    assert(4 * ((y + j) * width + x) + off == 4 * ((y + j) * width + (x + i)) + c);
}

/// The name of the file for the picture of a screen.
pub fn monitor_file(index: usize, millis: u64) -> (out: String)
    ensures
        out@ == "monitor_"@ + text::decimal(index as nat) + "_"@ + text::decimal(millis as nat)
            + ".png"@,
{
    let a: String = text::dec_u64(index as u64);
    let b: String = text::dec_u64(millis);
    let front: String = text::concat3("monitor_", a.as_str(), "_");
    text::concat3(front.as_str(), b.as_str(), ".png")
}

/// The name of the file for a part of a picture.
pub fn crop_file(millis: u64) -> (out: String)
    ensures
        out@ == "crop_"@ + text::decimal(millis as nat) + ".png"@,
{
    let n: String = text::dec_u64(millis);
    text::concat3("crop_", n.as_str(), ".png")
}

// ---- text in pictures ----

/// The text of the first `n` of the lines found in a picture, and whether the last of them ends in
/// a hyphen that joins it to the next. Lines stand below each other, without white space at their
/// ends; a word that is divided between two lines is put together again. `total` is the number of
/// all lines: the hyphen at the end of the last one stays.
pub open spec fn ocr_text(lines: Seq<Seq<char>>, n: int, total: int) -> (Seq<char>, bool)
    decreases n,
{
    if n <= 0 {
        (seq![], false)
    } else {
        let (before, pending) = ocr_text(lines, n - 1, total);
        let line = text::trimmed(lines[n - 1]);
        let whole = if pending || before.len() == 0 {
            before + line
        } else {
            before + "\r\n"@ + line
        };
        if line.len() > 0 && line.last() == '-' && n < total {
            (whole.drop_last(), true)
        } else {
            (whole, false)
        }
    }
}

/// The text of the lines found in a picture.
pub fn join_ocr_lines(lines: &Vec<String>) -> (out: String)
    ensures
        out@ == ocr_text(text::views(lines@), lines@.len() as int, lines@.len() as int).0,
{
    let total: usize = lines.len();
    let ghost v = text::views(lines@);
    let mut out: String = String::new();
    let mut pending: bool = false;
    assert(out@ =~= Seq::empty());
    for i in 0..total
        invariant
            total == lines@.len(),
            v == text::views(lines@),
            (out@, pending) == ocr_text(v, i as int, total as int),
    {
        assert(v[i as int] == lines@[i as int]@);
        let line: String = text::trim(lines[i].as_str());
        if !pending && !out.as_str().is_empty() {
            out.append("\r\n");
        }
        let ghost before = out@;
        out.append(line.as_str());
        let x: Vec<char> = text::chars_of(line.as_str());
        pending = x.len() > 0 && x[x.len() - 1] == '-' && i + 1 < total;
        if pending {
            let n: usize = out.as_str().unicode_len();
            let cut: String = text::take(out.as_str(), n - 1);
            assert(cut@ =~= out@.drop_last());
            out = cut;
        }
    }
    out
}

/// What is done with the text found in a picture.
#[derive(Clone, Copy, PartialEq, Eq, Debug, Structural)]
pub enum OcrAction {
    Copy,
    Search,
    AskAi,
}

/// What is done with the text found in a picture, by its name.
pub fn capture_ocr_action(action: &str) -> (out: Result<OcrAction, String>)
    ensures
        match out {
            Ok(a) => {
                ||| action@ == "copy"@ && a == OcrAction::Copy
                ||| action@ == "search"@ && a == OcrAction::Search
                ||| action@ == "ask_ai"@ && a == OcrAction::AskAi
            },
            Err(e) => {
                &&& action@ != "copy"@
                &&& action@ != "search"@
                &&& action@ != "ask_ai"@
                &&& e@ == "Unknown OCR action: "@ + action@
            },
        },
{
    if text::same(action, "copy") {
        Ok(OcrAction::Copy)
    } else if text::same(action, "search") {
        Ok(OcrAction::Search)
    } else if text::same(action, "ask_ai") {
        Ok(OcrAction::AskAi)
    } else {
        Err(text::concat2("Unknown OCR action: ", action))
    }
}

/// The address that searches for the text found in a picture.
pub fn ocr_search_url(found: &str) -> (out: String)
    ensures
        out@ == "https://duckduckgo.com/?q="@ + search::percent_encoded(found@),
{
    text::concat2("https://duckduckgo.com/?q=", search::percent_encode(found).as_str())
}

// ---- what is done with a picture ----

/// What doing something with a picture asks for.
pub enum ShotPlan {
    /// The picture is copied.
    Copy,
    /// The picture is kept under this name.
    Save { file_name: String },
    /// The picture is copied, and the page that searches for pictures is opened.
    Search { window_id: i32, url: String },
    /// A chatbot is asked about a text. Where its address has no place for the text, the text is
    /// copied.
    AskText { window_id: i32, url: String, copy_text: Option<String> },
    /// The picture is copied, and the chatbot is opened.
    AskImage { window_id: i32, url: String },
    /// The picture is shown in a window of its own.
    Pin { label: String, url: String },
}

/// Whether doing something with a picture opens a page, for which a window has to come to the front
/// before it is asked which one has the keyboard.
pub fn opens_page(action: &str) -> (out: bool)
    ensures
        out == (action@ == "search"@ || action@ == "ask_ai"@),
{
    text::same(action, "search") || text::same(action, "ask_ai")
}

/// The address of the chatbot, with a place for a question if it has one.
pub open spec fn chat_template(setting: Option<Seq<char>>) -> Seq<char> {
    match setting {
        Some(s) => s,
        None => "https://chatgpt.com/?q=%s"@,
    }
}

/// What doing something with a picture asks for, by the name of the action. `found` is the text
/// that was found in it, `chat_setting` the chatbot that the user has set, `focused` the names of
/// the windows that have the keyboard; the time is given in milliseconds and seconds since 1970.
pub fn execute_screenshot_action(
    action: &str,
    image_path: &str,
    found: Option<String>,
    chat_setting: Option<String>,
    focused: &Vec<String>,
    millis: u128,
    secs: u64,
) -> (out: Result<ShotPlan, String>)
    ensures
        ({
            let here = windows::first_number(text::views(focused@));
            let template = chat_template(text::opt_view(chat_setting));
            match out {
                Ok(ShotPlan::Copy) => action@ == "copy"@,
                Ok(ShotPlan::Save { file_name }) => {
                    &&& action@ == "save"@
                    &&& file_name@ == "jello_"@ + text::decimal(secs as nat) + ".png"@
                },
                Ok(ShotPlan::Search { window_id, url }) => {
                    &&& action@ == "search"@
                    &&& window_id == here
                    &&& url@ == "https://lens.google.com/upload"@
                },
                Ok(ShotPlan::AskText { window_id, url, copy_text }) => {
                    &&& action@ == "ask_ai"@
                    &&& found is Some
                    &&& window_id == here
                    &&& if text::has(template, "%s"@) {
                        &&& url@ == text::replaced(
                            template,
                            "%s"@,
                            search::percent_encoded(found->0@),
                        )
                        &&& copy_text is None
                    } else {
                        &&& url@ == template
                        &&& copy_text == found
                    }
                },
                Ok(ShotPlan::AskImage { window_id, url }) => {
                    &&& action@ == "ask_ai"@
                    &&& found is None
                    &&& window_id == here
                    &&& url@ == text::pieces(template, '?')[0]
                },
                Ok(ShotPlan::Pin { label, url }) => {
                    &&& action@ == "pin"@
                    &&& label@ == "pin_"@ + text::decimal_int(windows::number_at(millis as int))
                    &&& url@ == "index.html?pin_image="@ + search::percent_encoded(image_path@)
                },
                Err(e) => {
                    &&& action@ != "copy"@ && action@ != "save"@ && action@ != "search"@
                    &&& action@ != "ask_ai"@ && action@ != "pin"@
                    &&& e@ == "Unknown screenshot action: "@ + action@
                },
            }
        }),
{
    if text::same(action, "copy") {
        Ok(ShotPlan::Copy)
    } else if text::same(action, "save") {
        let n: String = text::dec_u64(secs);
        Ok(ShotPlan::Save { file_name: text::concat3("jello_", n.as_str(), ".png") })
    } else if text::same(action, "search") {
        Ok(
            ShotPlan::Search {
                window_id: windows::focused_window_id(focused),
                url: "https://lens.google.com/upload".to_owned(),
            },
        )
    } else if text::same(action, "ask_ai") {
        let window_id: i32 = windows::focused_window_id(focused);
        let template: String = match chat_setting {
            Some(s) => s,
            None => "https://chatgpt.com/?q=%s".to_owned(),
        };
        proof {
            reveal_strlit("%s");
        }
        match found {
            Some(words) => if text::contains(template.as_str(), "%s") {
                let encoded: String = search::percent_encode(words.as_str());
                let url: String = text::replace(template.as_str(), "%s", encoded.as_str());
                Ok(ShotPlan::AskText { window_id, url, copy_text: None })
            } else {
                Ok(ShotPlan::AskText { window_id, url: template, copy_text: Some(words) })
            },
            None => {
                let parts: Vec<String> = text::split(template.as_str(), '?');
                let url: String = parts[0].clone();
                assert(url@ == text::pieces(template@, '?')[0]);
                Ok(ShotPlan::AskImage { window_id, url })
            },
        }
    } else if text::same(action, "pin") {
        let number: i32 = windows::window_number(millis);
        let encoded: String = search::percent_encode(image_path);
        Ok(
            ShotPlan::Pin {
                label: text::concat2("pin_", text::dec_i64(number as i64).as_str()),
                url: text::concat2("index.html?pin_image=", encoded.as_str()),
            },
        )
    } else {
        Err(text::concat2("Unknown screenshot action: ", action))
    }
}

/// Turning the colours round twice changes nothing but that no pixel is see-through.
pub proof fn law_recoloured_twice(p: Seq<u8>)
    requires
        p.len() % 4 == 0,
    ensures
        recoloured(recoloured(p)).len() == p.len(),
        forall|i: int|
            0 <= i < p.len() ==> #[trigger] recoloured(recoloured(p))[i] == if i % 4 == 3 {
                255
            } else {
                p[i]
            },
{
}

/// A line that ends in a hyphen once the white space at its ends is gone.
pub open spec fn is_divided(line: Seq<char>) -> bool {
    text::trimmed(line).len() > 0 && text::trimmed(line).last() == '-'
}

/// A single line gives its text, free of white space at its ends, with all of its characters.
pub proof fn law_ocr_single_line(line: Seq<char>)
    ensures
        ocr_text(seq![line], 1, 1).0 == text::trimmed(line),
{
    let none: Seq<char> = ocr_text(seq![line], 0, 1).0;
    assert(none =~= Seq::empty());
    assert(none + text::trimmed(line) =~= text::trimmed(line));
}

/// Lines that are not divided stand below each other from the first that is not empty, each with
/// all of its characters and in their order. A hyphen at the very end stays.
pub proof fn law_ocr_lines(lines: Seq<Seq<char>>, k: int)
    requires
        0 <= k < lines.len(),
        forall|i: int| 0 <= i < k ==> text::trimmed(#[trigger] lines[i]).len() == 0,
        text::trimmed(lines[k]).len() > 0,
        forall|i: int| 0 <= i < lines.len() - 1 ==> !is_divided(#[trigger] lines[i]),
    ensures
        ocr_text(lines, lines.len() as int, lines.len() as int).0 == text::joined(
            lines.skip(k).map_values(|l: Seq<char>| text::trimmed(l)),
            "\r\n"@,
        ),
{
    lemma_ocr_lines(lines, k, lines.len() as int);
    assert(lines.subrange(k, lines.len() as int) =~= lines.skip(k));
}

proof fn lemma_ocr_lines(lines: Seq<Seq<char>>, k: int, n: int)
    requires
        0 <= k < lines.len(),
        0 <= n <= lines.len(),
        forall|i: int| 0 <= i < k ==> text::trimmed(#[trigger] lines[i]).len() == 0,
        text::trimmed(lines[k]).len() > 0,
        forall|i: int| 0 <= i < lines.len() - 1 ==> !is_divided(#[trigger] lines[i]),
    ensures
        n <= k ==> ocr_text(lines, n, lines.len() as int).0.len() == 0,
        n > k ==> ocr_text(lines, n, lines.len() as int).0 == text::joined(
            lines.subrange(k, n).map_values(|l: Seq<char>| text::trimmed(l)),
            "\r\n"@,
        ),
        n > k ==> ocr_text(lines, n, lines.len() as int).0.len() > 0,
        !ocr_text(lines, n, lines.len() as int).1,
    decreases n,
{
    if n > 0 {
        let total = lines.len() as int;
        lemma_ocr_lines(lines, k, n - 1);
        let before = ocr_text(lines, n - 1, total).0;
        let line = text::trimmed(lines[n - 1]);
        if n < total {
            assert(!is_divided(lines[n - 1]));
        }
        if n <= k {
            assert(before + line =~= Seq::empty());
        } else {
            let now = lines.subrange(k, n).map_values(|l: Seq<char>| text::trimmed(l));
            let past = lines.subrange(k, n - 1).map_values(|l: Seq<char>| text::trimmed(l));
            assert(now.drop_last() =~= past);
            assert(now.last() == line);
            if n == k + 1 {
                assert(before + line =~= line);
            }
        }
    }
}

/// Taken apart at the line breaks, the text of lines that are not divided, not empty and without
/// line breaks in them gives the lines back, without the white space at their ends.
pub proof fn law_ocr_taken_apart(lines: Seq<Seq<char>>)
    requires
        lines.len() > 0,
        forall|i: int| 0 <= i < lines.len() ==> text::trimmed(#[trigger] lines[i]).len() > 0,
        forall|i: int| 0 <= i < lines.len() ==> !text::trimmed(#[trigger] lines[i]).contains('\n'),
        forall|i: int| 0 <= i < lines.len() - 1 ==> !is_divided(#[trigger] lines[i]),
    ensures
        ({
            let found = text::pieces(
                ocr_text(lines, lines.len() as int, lines.len() as int).0,
                '\n',
            );
            &&& found.len() == lines.len()
            &&& forall|i: int|
                0 <= i < lines.len() - 1 ==> #[trigger] found[i] == text::trimmed(lines[i]).push('\r')
            &&& found.last() == text::trimmed(lines.last())
        }),
{
    let t = lines.map_values(|l: Seq<char>| text::trimmed(l));
    law_ocr_lines(lines, 0);
    assert(lines.skip(0) =~= lines);
    let ended = Seq::new(
        t.len(),
        |i: int|
            if i < t.len() - 1 {
                t[i].push('\r')
            } else {
                t[i]
            },
    );
    lemma_line_breaks(t, t.len() as int);
    assert(t.take(t.len() as int) =~= t);
    assert(ended.drop_last() =~= t.take(t.len() - 1).map_values(|l: Seq<char>| l.push('\r')));
    assert forall|i: int| 0 <= i < ended.len() implies !(#[trigger] ended[i]).contains('\n') by {
        let l = text::trimmed(lines[i]);
        assert(!l.contains('\n'));
        assert forall|j: int| 0 <= j < ended[i].len() implies ended[i][j] != '\n' by {
            if j < l.len() {
                assert(ended[i][j] == l[j]);
            }
        }
    }
    assert(ended.last() == t.last());
    text::law_joined_pieces(ended, '\n');
    if ended.len() > 1 {
        reveal_strlit("\r\n");
        let front = text::joined(ended.drop_last(), seq!['\n']);
        assert(front + seq!['\n'] + ended.last() =~= text::joined(t.drop_last(), "\r\n"@) + "\r\n"@
            + t.last()) by {
            assert(t.drop_last() =~= t.take(t.len() - 1));
            assert("\r\n"@ =~= seq!['\r', '\n']);
            lemma_line_breaks(t, t.len() - 1);
        }
    }
}

/// Joining lines with line breaks, up to the last, is joining them with the first half of the break
/// at their ends and the second half between them.
proof fn lemma_line_breaks(t: Seq<Seq<char>>, n: int)
    requires
        0 <= n <= t.len(),
    ensures
        n > 0 ==> text::joined(t.take(n).map_values(|l: Seq<char>| l.push('\r')), seq!['\n'])
            == text::joined(t.take(n), "\r\n"@).push('\r'),
    decreases n,
{
    if n == 1 {
        assert(t.take(1).map_values(|l: Seq<char>| l.push('\r'))[0] == t[0].push('\r'));
    } else if n > 1 {
        lemma_line_breaks(t, n - 1);
        reveal_strlit("\r\n");
        assert("\r\n"@ =~= seq!['\r', '\n']);
        let a = t.take(n).map_values(|l: Seq<char>| l.push('\r'));
        assert(a.drop_last() =~= t.take(n - 1).map_values(|l: Seq<char>| l.push('\r')));
        assert(t.take(n).drop_last() =~= t.take(n - 1));
        assert(a.last() == t[n - 1].push('\r'));
        assert(text::joined(a, seq!['\n']) =~= text::joined(t.take(n), "\r\n"@).push('\r'));
    }
}

/// A word that is divided between the last two lines is put together: the text is the one that
/// comes of a single line with the word undivided in their place.
pub proof fn law_ocr_undivided(lines: Seq<Seq<char>>, x: Seq<char>, y: Seq<char>)
    requires
        is_divided(x),
        text::trimmed(y).len() > 0,
    ensures
        ocr_text(lines.push(x).push(y), lines.len() + 2int, lines.len() + 2int).0 == ocr_text(
            lines.push(text::trimmed(x).drop_last() + text::trimmed(y)),
            lines.len() + 1int,
            lines.len() + 1int,
        ).0,
{
    let n = lines.len() as int;
    let w = text::trimmed(x).drop_last();
    let v = text::trimmed(y);
    let two = lines.push(x).push(y);
    let one = lines.push(w + v);
    let whole_x = text::law_trimmed_whole(x);
    let whole_y = text::law_trimmed_whole(y);
    if w.len() > 0 {
        assert((w + v)[0] == text::trimmed(x)[0]);
    } else {
        assert((w + v)[0] == v[0]);
    }
    assert((w + v).last() == v.last());
    text::law_trimmed_stays(w + v);
    lemma_ocr_front(two, one, n, n + 2, n + 1);
    let (before, pending) = ocr_text(two, n, n + 2);
    let gap = if pending || before.len() == 0 {
        seq![]
    } else {
        "\r\n"@
    };
    let t = text::trimmed(x);
    let (mid, joins) = ocr_text(two, n + 1, n + 2);
    assert(two[n] == x && two[n + 1] == y && one[n] == w + v);
    assert(before + gap + t =~= if pending || before.len() == 0 {
        before + t
    } else {
        before + "\r\n"@ + t
    });
    assert(mid =~= before + gap + w);
    assert(joins);
    assert(ocr_text(two, n + 2, n + 2).0 =~= before + gap + w + v);
    assert(ocr_text(one, n + 1, n + 1).0 =~= before + gap + (w + v));
}

/// What comes of the first lines depends on them alone, as long as others follow.
proof fn lemma_ocr_front(a: Seq<Seq<char>>, b: Seq<Seq<char>>, n: int, s: int, t: int)
    requires
        0 <= n <= a.len(),
        n <= b.len(),
        n < s,
        n < t,
        forall|i: int| 0 <= i < n ==> a[i] == b[i],
    ensures
        ocr_text(a, n, s) == ocr_text(b, n, t),
    decreases n,
{
    if n > 0 {
        lemma_ocr_front(a, b, n - 1, s, t);
    }
}

/// Each pixel has its colours turned round, red for blue, keeps its green and is not see-through;
/// what is left over of an unfinished pixel stays.
pub proof fn law_recoloured(p: Seq<u8>, k: int)
    requires
        0 <= k,
    ensures
        recoloured(p).len() == p.len(),
        4 * k + 3 < p.len() ==> recoloured(p)[4 * k] == p[4 * k + 2] && recoloured(p)[4 * k + 1]
            == p[4 * k + 1] && recoloured(p)[4 * k + 2] == p[4 * k] && recoloured(p)[4 * k + 3] == 255,
        k < p.len() && k >= p.len() - p.len() % 4 ==> recoloured(p)[k] == p[k],
{
}

/// What would lie outside a picture is left off: the part ends where the picture ends, and a corner
/// outside the picture gives nothing.
pub proof fn law_cut_off(p: Seq<u8>, width: int, height: int, x: int, y: int, w: int, h: int)
    requires
        0 <= width && 0 <= height && 0 <= x && 0 <= y && 0 <= w && 0 <= h,
    ensures
        x <= width < x + w ==> cut_out(p, width, height, x, y, w, h).1 == width - x,
        y <= height < y + h ==> cut_out(p, width, height, x, y, w, h).2 == height - y,
        x >= width ==> cut_out(p, width, height, x, y, w, h).1 == 0 && cut_out(
            p,
            width,
            height,
            x,
            y,
            w,
            h,
        ).0.len() == 0,
        y >= height ==> cut_out(p, width, height, x, y, w, h).2 == 0 && cut_out(
            p,
            width,
            height,
            x,
            y,
            w,
            h,
        ).0.len() == 0,
{
    let c = cut_out(p, width, height, x, y, w, h);
    assert(c.1 == 0 ==> 4 * c.1 * c.2 == 0) by (nonlinear_arith);
    assert(c.2 == 0 ==> 4 * c.1 * c.2 == 0) by (nonlinear_arith);
}

/// Read without a sign, a number of pixels stays as it is, and one below zero lies beyond every
/// picture.
pub proof fn law_unsigned(n: i32)
    ensures
        n >= 0 ==> unsigned(n) == n,
        n < 0 ==> 0x8000_0000 <= unsigned(n) < 0x1_0000_0000 && (unsigned(n) - n) == 0x1_0000_0000,
{
}

/// The chatbot is asked where the user has set, else at ChatGPT, with a place for the question.
pub proof fn law_chat_template(setting: Seq<char>)
    ensures
        chat_template(Some(setting)) == setting,
        chat_template(None) == "https://chatgpt.com/?q="@ + "%s"@,
{
    reveal_strlit("https://chatgpt.com/?q=%s");
    reveal_strlit("https://chatgpt.com/?q=");
    reveal_strlit("%s");
    assert("https://chatgpt.com/?q=%s"@ =~= "https://chatgpt.com/?q="@ + "%s"@);
}

} // verus!
