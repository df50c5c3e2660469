//! Areas of the screen, and how `ratatui` divides one.
use ratatui::layout;
use vstd::prelude::*;

verus! {

/// A rectangle of screen cells.
#[derive(Debug, Clone, Copy, PartialEq, Eq, Structural)]
pub struct Rect {
    pub x: u16,
    pub y: u16,
    pub width: u16,
    pub height: u16,
}

/// The axis along which an area is divided.
#[derive(Debug, Clone, Copy, PartialEq, Eq, Structural)]
pub enum Direction {
    Horizontal,
    Vertical,
}

/// What is asked of the size of a part.
#[derive(Debug, Clone, Copy, PartialEq, Eq, Structural)]
pub enum Constraint {
    /// This many cells.
    Length(u16),
    /// At least this many cells.
    Min(u16),
    /// This share of the whole, in hundredths.
    Percentage(u16),
}

/// The end of a stretch of cells, held to what sixteen bits can count.
pub open spec fn end_of(start: u16, size: u16) -> int {
    if start + size <= u16::MAX {
        start + size
    } else {
        u16::MAX as int
    }
}

impl Rect {
    /// A rectangle at a position, of a size.
    pub fn new(x: u16, y: u16, width: u16, height: u16) -> (r: Self)
        ensures
            r == (Rect { x, y, width, height }),
    {
        Rect { x, y, width, height }
    }

    /// Where the rectangle starts along an axis.
    pub open spec fn start(self, direction: Direction) -> int {
        match direction {
            Direction::Horizontal => self.x as int,
            Direction::Vertical => self.y as int,
        }
    }

    /// Where the rectangle ends along an axis.
    pub open spec fn end(self, direction: Direction) -> int {
        match direction {
            Direction::Horizontal => end_of(self.x, self.width),
            Direction::Vertical => end_of(self.y, self.height),
        }
    }

    /// How far the rectangle reaches along an axis.
    pub open spec fn size(self, direction: Direction) -> int {
        match direction {
            Direction::Horizontal => self.width as int,
            Direction::Vertical => self.height as int,
        }
    }

    /// Whether this rectangle lies within another along an axis, and covers it
    /// along the other axis.
    pub open spec fn is_part_of(self, area: Rect, direction: Direction) -> bool {
        &&& area.start(direction) <= self.start(direction)
        &&& self.start(direction) + self.size(direction) <= area.end(direction)
        &&& match direction {
            Direction::Horizontal => self.y == area.y && self.height == area.height,
            Direction::Vertical => self.x == area.x && self.width == area.width,
        }
    }
}

/// Whether the parts fill an area along an axis, each beginning where the one
/// before it ends.
pub open spec fn fills(area: Rect, direction: Direction, parts: Seq<Rect>) -> bool {
    &&& parts.len() > 0
    &&& parts[0].start(direction) == area.start(direction)
    &&& forall|k: int|
        0 < k < parts.len() ==> (#[trigger] parts[k]).start(direction) == parts[k - 1].start(
            direction,
        ) + parts[k - 1].size(direction)
    &&& parts.last().start(direction) + parts.last().size(direction) == area.end(direction)
}

/// Whether a first part of a fixed length is asked for that fits, and the rest
/// for a second part.
pub open spec fn asks_for_head(area: Rect, direction: Direction, constraints: Seq<Constraint>) -> bool {
    &&& constraints.len() == 2
    &&& constraints[0] matches Constraint::Length(n) && area.start(direction) + n <= area.end(
        direction,
    )
    &&& constraints[1] == Constraint::Min(0)
}

/// The sum of the shares that are asked for; anything else than a share counts
/// as none.
pub open spec fn shares(constraints: Seq<Constraint>) -> int
    decreases constraints.len(),
{
    if constraints.len() == 0 {
        0
    } else {
        shares(constraints.drop_last()) + match constraints.last() {
            Constraint::Percentage(p) => p as int,
            _ => 0,
        }
    }
}

/// Whether shares are asked for that make up the whole.
pub open spec fn asks_for_shares(constraints: Seq<Constraint>) -> bool {
    &&& constraints.len() > 0
    &&& forall|k: int|
        0 <= k < constraints.len() ==> ((#[trigger] constraints[k]) matches Constraint::Percentage(p)
            && p > 0)
    &&& shares(constraints) == 100
}

/// Where the first so many hundredths of an area end along an axis, to the nearest
/// cell; halfway between two, the farther one.
pub open spec fn share_end(area: Rect, direction: Direction, share: int) -> int {
    let whole = area.end(direction) - area.start(direction);
    (100 * area.start(direction) + share * whole + 50) / 100
}

/// Divides an area along an axis.
///
/// Trusted: calls `ratatui::layout::Layout::split`, with no margin, no spacing
/// and parts flush to the start. There is a part for each constraint, and it
/// lies within the area. A fixed length that fits, followed by a part for the
/// rest, is met exactly. Shares that make up the whole fill the area, and each
/// edge between two of them is rounded to the nearest cell. What other constraints
/// give is left unsaid.
#[verifier::external_body]
pub(crate) fn split_area(area: Rect, direction: Direction, constraints: &Vec<Constraint>) -> (parts:
    Vec<Rect>)
    ensures
        parts@.len() == constraints@.len(),
        forall|k: int| 0 <= k < parts@.len() ==> (#[trigger] parts@[k]).is_part_of(area, direction),
        asks_for_head(area, direction, constraints@) ==> fills(area, direction, parts@)
            && parts@[0].size(direction) == constraints@[0]->Length_0,
        asks_for_shares(constraints@) ==> fills(area, direction, parts@),
        asks_for_shares(constraints@) ==> forall|k: int|
            0 <= k < parts@.len() ==> (#[trigger] parts@[k]).start(direction) + parts@[k].size(
                direction,
            ) == share_end(area, direction, shares(constraints@.take(k + 1))),
{
    let sizes = constraints.iter().map(|c| match c {
        Constraint::Length(n) => layout::Constraint::Length(*n),
        Constraint::Min(n) => layout::Constraint::Min(*n),
        Constraint::Percentage(n) => layout::Constraint::Percentage(*n),
    });
    let axis = match direction {
        Direction::Horizontal => layout::Direction::Horizontal,
        Direction::Vertical => layout::Direction::Vertical,
    };
    let whole = layout::Rect { x: area.x, y: area.y, width: area.width, height: area.height };
    let parts = layout::Layout::default().direction(axis).constraints(sizes).split(whole);
    parts.iter().map(|r| Rect::new(r.x, r.y, r.width, r.height)).collect()
}

} // verus!
