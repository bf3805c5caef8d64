//! Screen rectangles and the layout calls made on them through ratatui.

use vstd::prelude::*;
use ratatui::layout::{Constraint, Direction, Layout, Rect};
use ratatui::widgets::{Block, Borders};

verus! {

/// A screen rectangle in terminal cells.
#[derive(Debug, Clone, Copy, PartialEq, Eq, Structural)]
pub struct Area {
    pub x: u16,
    pub y: u16,
    pub width: u16,
    pub height: u16,
}

/// How much room a row or column asks for.
#[derive(Debug, Clone, Copy, PartialEq, Eq, Structural)]
pub enum Sizing {
    /// A share of the space left (ratatui `Constraint::Fill`).
    Fill(u16),
    /// A fixed number of cells (ratatui `Constraint::Length`).
    Length(u16),
    /// A percentage of the space (ratatui `Constraint::Percentage`).
    Percentage(u16),
}

/// Direction of a split.
#[derive(Debug, Clone, Copy, PartialEq, Eq, Structural)]
pub enum Axis {
    /// Rows stacked top to bottom.
    Vertical,
    /// Columns side by side.
    Horizontal,
}

/// Relates an area, a direction and sizings to a division of the area that ratatui's
/// layout may return for them. It is a relation, not a function: one layout may be
/// solved to different divisions (see `layout_split`). Nothing is known of it but that
/// the division returned for some arguments is related to those arguments, so a plan
/// stated over it says which sizings were asked for.
pub uninterp spec fn layout_outcome(area: Area, axis: Axis, sizes: Seq<Sizing>, r: Seq<Area>) -> bool;

/// `r` is a possible outcome of splitting `area` along `axis` by `sizes`: one rectangle
/// per sizing, related to the sizings by `layout_outcome`, each keeping the area's
/// position and extent across the split, and along it lying within the area and
/// ending within the `u16` range.
pub open spec fn split_shape(area: Area, axis: Axis, sizes: Seq<Sizing>, r: Seq<Area>) -> bool {
    &&& r.len() == sizes.len()
    &&& layout_outcome(area, axis, sizes, r)
    &&& forall|i: int|
        0 <= i < r.len() ==> if axis == Axis::Vertical {
            (#[trigger] r[i]).x == area.x && r[i].width == area.width && area.y <= r[i].y && r[i].y
                + r[i].height <= area.y + area.height && r[i].y + r[i].height <= u16::MAX
        } else {
            (#[trigger] r[i]).y == area.y && r[i].height == area.height && area.x <= r[i].x && r[i].x
                + r[i].width <= area.x + area.width && r[i].x + r[i].width <= u16::MAX
        }
}

/// ratatui `Layout::default().direction(..).constraints(..).split(area)`. As the crate's
/// source shows, the result holds one rectangle per constraint; each keeps the area's
/// position and extent across the split direction; along it each rectangle starts and
/// ends within the area (the solver's required constraints keep every edge between the
/// area's edges, and rounding keeps them there) and ends within the `u16` range. The
/// result is related to the constraints asked for by `layout_outcome`. Which rectangles
/// come out is not stated: the sizes of the parts are the solver's optimum over
/// non-required constraints, found with cassowary, whose pivots follow the order of
/// randomly seeded hash maps, so two solves of one layout may differ (ratatui's own
/// documentation says so for conflicting constraints, and its layout cache is bounded,
/// so a layout can be solved again).
#[verifier::external_body]
pub(crate) fn layout_split(area: Area, axis: Axis, sizes: &[Sizing]) -> (r: Vec<Area>)
    ensures
        layout_outcome(area, axis, sizes@, r@),
        split_shape(area, axis, sizes@, r@),
{
    let direction = match axis { Axis::Vertical => Direction::Vertical, Axis::Horizontal => Direction::Horizontal };
    let constraints: Vec<Constraint> = sizes.iter().map(|s| match s {
        Sizing::Fill(n) => Constraint::Fill(*n),
        Sizing::Length(n) => Constraint::Length(*n),
        Sizing::Percentage(n) => Constraint::Percentage(*n),
    }).collect();
    let rect = Rect { x: area.x, y: area.y, width: area.width, height: area.height };
    let parts = Layout::default().direction(direction).constraints(constraints).split(rect);
    parts.iter().map(|r| Area { x: r.x, y: r.y, width: r.width, height: r.height }).collect()
}

/// The inside of a block with borders on all sides (ratatui `Block::inner`).
pub open spec fn bordered_inner(a: Area) -> Area {
    let right = if a.x + a.width <= u16::MAX {
        (a.x + a.width) as u16
    } else {
        u16::MAX
    };
    let bottom = if a.y + a.height <= u16::MAX {
        (a.y + a.height) as u16
    } else {
        u16::MAX
    };
    let x1 = if a.x + 1 <= u16::MAX {
        (a.x + 1) as u16
    } else {
        u16::MAX
    };
    let y1 = if a.y + 1 <= u16::MAX {
        (a.y + 1) as u16
    } else {
        u16::MAX
    };
    Area {
        x: if x1 <= right {
            x1
        } else {
            right
        },
        y: if y1 <= bottom {
            y1
        } else {
            bottom
        },
        width: if a.width >= 2 {
            (a.width - 2) as u16
        } else {
            0
        },
        height: if a.height >= 2 {
            (a.height - 2) as u16
        } else {
            0
        },
    }
}

/// ratatui `Block::inner` for a block with all borders and a top title: one cell less
/// on every side (saturating, the origin kept within the area's right and bottom edges).
#[verifier::external_body]
pub(crate) fn block_inner(area: Area) -> (r: Area)
    ensures
        r == bordered_inner(area),
{
    let rect = Rect { x: area.x, y: area.y, width: area.width, height: area.height };
    let inner = Block::default().borders(Borders::ALL).title(" ").inner(rect);
    Area { x: inner.x, y: inner.y, width: inner.width, height: inner.height }
}

/// `n` equal shares of the space.
pub fn fill_rows(n: usize) -> (r: Vec<Sizing>)
    ensures
        r@ == Seq::new(n as nat, |i: int| Sizing::Fill(1)),
{
    let mut r: Vec<Sizing> = Vec::new();
    let mut i: usize = 0;
    while i < n
        invariant
            i <= n,
            r@ == Seq::new(i as nat, |k: int| Sizing::Fill(1)),
        decreases n - i,
    {
        r.push(Sizing::Fill(1));
        i = i + 1;
        assert(r@ =~= Seq::new(i as nat, |k: int| Sizing::Fill(1)));
    }
    r
}

} // verus!
