//! Where the parts of a chart image lie, in pixels.

use vstd::prelude::*;

verus! {

/// Final PNG width in pixels.
///
/// Sized for phone chat display: small enough that the font sizes below remain readable after
/// Threema scales the image to the chat width.
pub const WIDTH: u32 = 720;

/// Final PNG height in pixels.
pub const HEIGHT: u32 = 1000;

/// Supersampling factor: the image is rendered this many times larger than the final one and then
/// scaled down, which smooths thick lines and evens out text.
pub const RENDER_SCALE: u32 = 2;

/// Render width (before downscaling).
pub const RENDER_WIDTH: u32 = 720 * 2;

/// Render height (before downscaling).
pub const RENDER_HEIGHT: u32 = 1000 * 2;

/// Font size of the top-level sensor name title.
pub const TITLE_FONT_SIZE: u32 = 42 * 2;

/// Font size of each chart's caption (e.g. "Last 24 hours").
pub const CAPTION_FONT_SIZE: u32 = 26 * 2;

/// Font size of axis tick labels.
pub const LABEL_FONT_SIZE: u32 = 20 * 2;

/// Stroke width of the average temperature line.
pub const LINE_WIDTH: u32 = 3 * 2;

/// Blank padding above the title.
pub const TITLE_TOP_PADDING: i32 = 24 * 2;

/// Height of the title area at the top of the chart.
pub const TITLE_AREA_HEIGHT: i32 = 80 * 2;

/// Outer margin around each chart panel.
pub const CHART_MARGIN: i32 = 15 * 2;

/// Height of the x-axis label area below each chart.
pub const X_LABEL_AREA: i32 = 50 * 2;

/// Width of the y-axis label area to the left of each chart.
pub const Y_LABEL_AREA: i32 = 80 * 2;

/// Height reserved at the bottom of the image for the footer.
pub const FOOTER_AREA_HEIGHT: i32 = 80 * 2;

/// Right-side padding of the footer text.
pub const FOOTER_PADDING_RIGHT: i32 = 24 * 2;

/// Font size of the footer text.
pub const FOOTER_FONT_SIZE: u32 = 18 * 2;

/// Height of the caption area of a panel without data.
pub const EMPTY_CAPTION_HEIGHT: i32 = 40 * 2;

/// From line to line, text takes 13 tenths of its font size.
pub const LINE_GAP_TENTHS: u32 = 13;

/// Color of the average line and, mixed with the background, of the band.
pub const LINE_COLOR: (u8, u8, u8) = (0x1f, 0x77, 0xb4);

/// How high the charts are together, from the height below the title: all but the footer.
pub fn charts_height(body_height: u32) -> (height: i32)
    requires
        body_height <= i32::MAX,
    ensures
        height == body_height - FOOTER_AREA_HEIGHT,
{
    body_height as i32 - FOOTER_AREA_HEIGHT
}

/// Where the note of a panel without data begins: left of the middle, at half the height.
pub fn note_position(width: u32, height: u32) -> (position: (i32, i32))
    requires
        width <= i32::MAX,
        height <= i32::MAX,
    ensures
        position.0 == width as int / 2 - 40 * RENDER_SCALE,
        position.1 == height as int / 2,
{
    (width as i32 / 2 - 80, height as i32 / 2)
}

/// Where the two lines of the footer end: at the right, above and below the middle.
pub fn footer_positions(width: u32, height: u32) -> (positions: ((i32, i32), (i32, i32)))
    requires
        width <= i32::MAX,
        height <= i32::MAX,
    ensures
        ({
            let right = width - FOOTER_PADDING_RIGHT;
            let gap = FOOTER_FONT_SIZE * LINE_GAP_TENTHS / 10;
            let middle = height as int / 2;
            &&& positions.0.0 == right && positions.1.0 == right
            &&& positions.0.1 == middle - gap / 2
            &&& positions.1.1 == middle + gap / 2
        }),
{
    let right: i32 = width as i32 - FOOTER_PADDING_RIGHT;
    let gap: u32 = FOOTER_FONT_SIZE * LINE_GAP_TENTHS / 10;
    let half: i32 = (gap / 2) as i32;
    let middle: i32 = height as i32 / 2;
    ((right, middle - half), (right, middle + half))
}

} // verus!
