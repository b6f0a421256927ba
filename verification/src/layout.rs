//! Areas of the screen, as the `ratatui` crate divides them.

use ratatui::layout::{Constraint, Direction, Layout, Rect};
use ratatui::widgets::{Block, Borders};
use vstd::prelude::*;

verus! {

/// A rectangle of character cells.
#[derive(Clone, Copy, Debug, PartialEq, Eq, Structural)]
pub struct Area {
    pub x: u16,
    pub y: u16,
    pub width: u16,
    pub height: u16,
}

/// `a + b`, as far as 16 bits reach.
pub open spec fn added(a: u16, b: u16) -> u16 {
    if a + b > u16::MAX {
        u16::MAX
    } else {
        (a + b) as u16
    }
}

/// `a - b`, no less than zero.
pub open spec fn reduced(a: u16, b: u16) -> u16 {
    if a >= b {
        (a - b) as u16
    } else {
        0
    }
}

/// The lesser of two numbers.
pub open spec fn lesser(a: u16, b: u16) -> u16 {
    if a <= b {
        a
    } else {
        b
    }
}

/// What a border on all sides leaves of an area.
pub open spec fn inside_border(a: Area) -> Area {
    Area {
        x: lesser(added(a.x, 1), added(a.x, a.width)),
        y: lesser(added(a.y, 1), added(a.y, a.height)),
        width: reduced(a.width, 2),
        height: reduced(a.height, 2),
    }
}

/// `Block::inner` of `ratatui` gives the area inside a block's borders: one cell less on each side
/// that has a border. The inner corner stays within the area.
#[verifier::external_body]
pub(crate) fn block_inner(area: Area) -> (inner: Area)
    ensures
        inner == inside_border(area),
{
    let rect = Rect { x: area.x, y: area.y, width: area.width, height: area.height };
    let inner = Block::default().borders(Borders::ALL).inner(rect);
    Area { x: inner.x, y: inner.y, width: inner.width, height: inner.height }
}

/// Do `parts` divide an area from top to bottom into `top` lines, `middle` lines or more, and
/// `bottom` lines? They are three, of the whole's place and width across, and none leaves the whole.
/// Where the whole is high enough for all of them, the first and the last have just their lines, and
/// the one between has the rest. Of the whole, the lines count that have a 16-bit number.
pub open spec fn divided(area: Area, top: u16, middle: u16, bottom: u16, parts: Seq<Area>) -> bool {
    let end = added(area.y, area.height);
    let height = end - area.y;
    &&& parts.len() == 3
    &&& forall|i: int|
        0 <= i < 3 ==> (#[trigger] parts[i]).x == area.x && parts[i].width == area.width
    &&& forall|i: int|
        0 <= i < 3 ==> area.y <= (#[trigger] parts[i]).y && parts[i].y + parts[i].height <= end
    &&& top + middle + bottom <= height && middle <= i16::MAX ==> {
        &&& parts[0].y == area.y && parts[0].height == top
        &&& parts[1].y == area.y + top && parts[1].height == height - top - bottom
        &&& parts[2].y == end - bottom && parts[2].height == bottom
    }
}

/// `Layout::split` of `ratatui` divides an area from top to bottom by the constraints `Length(top)`,
/// `Min(middle)` and `Length(bottom)`. It gives one area for each, of the whole's place and width
/// across, which does not leave the whole. An area ends at the last 16-bit line number, where it
/// would go beyond. Where it is high enough, each constraint is met, the areas follow one another
/// without a gap, and lines that are left over go to the one in the middle, which alone may grow.
/// Where it is not, the constraint solver decides which constraint gives way, and as it walks hash
/// maps more than one answer can come: of that, no more is stated.
#[verifier::external_body]
pub(crate) fn split_rows(area: Area, top: u16, middle: u16, bottom: u16) -> (parts: Vec<Area>)
    ensures
        divided(area, top, middle, bottom, parts@),
{
    let rect = Rect { x: area.x, y: area.y, width: area.width, height: area.height };
    let parts = Layout::default()
        .direction(Direction::Vertical)
        .constraints([
            Constraint::Length(top),
            Constraint::Min(middle),
            Constraint::Length(bottom),
        ])
        .split(rect);
    parts.iter().map(|r| Area { x: r.x, y: r.y, width: r.width, height: r.height }).collect()
}

/// A border on all sides takes one cell on each: what it leaves begins one cell farther in and is two
/// cells smaller each way. Of an area too small for that, nothing is left.
pub proof fn lemma_inside_border(a: Area)
    ensures
        ({
            let inner = inside_border(a);
            &&& a.width >= 2 && a.x < u16::MAX ==> inner.x == a.x + 1 && inner.width == a.width - 2
            &&& a.height >= 2 && a.y < u16::MAX ==> inner.y == a.y + 1 && inner.height == a.height
                - 2
            &&& a.width < 2 ==> inner.width == 0
            &&& a.height < 2 ==> inner.height == 0
            &&& a.x <= inner.x
            &&& a.y <= inner.y
        }),
{
}

} // verus!
