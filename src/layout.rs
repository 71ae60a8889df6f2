//! Splitting the terminal into the dashboard's four regions.
use vstd::prelude::*;

verus! {

/// Rows given to the CPU band and to the RAM band when the terminal has them.
pub const BAND_HEIGHT: u16 = 3;

/// A rectangle of terminal cells.
#[derive(Clone, Copy, PartialEq, Eq, Structural, Debug)]
pub struct Rect {
    pub x: u16,
    pub y: u16,
    pub width: u16,
    pub height: u16,
}

/// The regions of one frame.
#[derive(Clone, Copy, PartialEq, Eq, Structural, Debug)]
pub struct Regions {
    pub cpu: Rect,
    pub ram: Rect,
    pub processes: Rect,
    pub network: Rect,
}

impl Rect {
    /// The rectangle lies inside the terminal's coordinate space.
    pub open spec fn wf(self) -> bool {
        self.x + self.width <= u16::MAX && self.y + self.height <= u16::MAX
    }

    pub open spec fn right(self) -> int {
        self.x + self.width
    }

    pub open spec fn bottom(self) -> int {
        self.y + self.height
    }

    pub open spec fn spec_is_empty(self) -> bool {
        self.width == 0 || self.height == 0
    }

    /// `r` lies within `self`.
    pub open spec fn contains_rect(self, r: Rect) -> bool {
        self.x <= r.x && r.right() <= self.right() && self.y <= r.y && r.bottom() <= self.bottom()
    }

    /// The rectangle covers no cell.
    #[verifier::when_used_as_spec(spec_is_empty)]
    pub fn is_empty(self) -> (r: bool)
        ensures
            r == self.spec_is_empty(),
    {
        self.width == 0 || self.height == 0
    }
}

/// The two rectangles share no cell.
pub open spec fn disjoint(a: Rect, b: Rect) -> bool {
    a.spec_is_empty() || b.spec_is_empty() || a.right() <= b.x || b.right() <= a.x || a.bottom() <= b.y
        || b.bottom() <= a.y
}

pub open spec fn min_u16(a: int, b: int) -> int {
    if a < b {
        a
    } else {
        b
    }
}

/// The regions for a terminal area. Three bands from the top: CPU and RAM
/// get up to three rows each, CPU first, and the bottom band the rest. The
/// bottom band is split into a left half for processes and a right half for
/// the network (the right one takes the odd column).
pub open spec fn layout_of(area: Rect) -> Regions {
    let cpu_h = min_u16(BAND_HEIGHT as int, area.height as int);
    let ram_h = min_u16(BAND_HEIGHT as int, area.height - cpu_h);
    let bottom_y = area.y + cpu_h + ram_h;
    let bottom_h = area.height - cpu_h - ram_h;
    let left_w = area.width / 2;
    Regions {
        cpu: Rect { x: area.x, y: area.y, width: area.width, height: cpu_h as u16 },
        ram: Rect { x: area.x, y: (area.y + cpu_h) as u16, width: area.width, height: ram_h as u16 },
        processes: Rect { x: area.x, y: bottom_y as u16, width: left_w as u16, height: bottom_h as u16 },
        network: Rect {
            x: (area.x + left_w) as u16,
            y: bottom_y as u16,
            width: (area.width - left_w) as u16,
            height: bottom_h as u16,
        },
    }
}

/// Computes the regions of a frame.
pub fn layout(area: Rect) -> (r: Regions)
    requires
        area.wf(),
    ensures
        r == layout_of(area),
{
    let cpu_h: u16 = if area.height < BAND_HEIGHT {
        area.height
    } else {
        BAND_HEIGHT
    };
    let rest: u16 = area.height - cpu_h;
    let ram_h: u16 = if rest < BAND_HEIGHT {
        rest
    } else {
        BAND_HEIGHT
    };
    let bottom_h: u16 = rest - ram_h;
    let bottom_y: u16 = area.y + cpu_h + ram_h;
    let left_w: u16 = area.width / 2;
    Regions {
        cpu: Rect { x: area.x, y: area.y, width: area.width, height: cpu_h },
        ram: Rect { x: area.x, y: area.y + cpu_h, width: area.width, height: ram_h },
        processes: Rect { x: area.x, y: bottom_y, width: left_w, height: bottom_h },
        network: Rect { x: area.x + left_w, y: bottom_y, width: area.width - left_w, height: bottom_h },
    }
}

/// No two regions overlap, and each lies within the terminal area.
pub proof fn lemma_layout_regions_disjoint(area: Rect)
    requires
        area.wf(),
    ensures
        ({
            let r = layout_of(area);
            &&& area.contains_rect(r.cpu)
            &&& area.contains_rect(r.ram)
            &&& area.contains_rect(r.processes)
            &&& area.contains_rect(r.network)
            &&& disjoint(r.cpu, r.ram)
            &&& disjoint(r.cpu, r.processes)
            &&& disjoint(r.cpu, r.network)
            &&& disjoint(r.ram, r.processes)
            &&& disjoint(r.ram, r.network)
            &&& disjoint(r.processes, r.network)
        }),
{
}

/// The layout depends on the area alone: the same area always gives the
/// same regions.
pub proof fn lemma_layout_deterministic(a: Rect, b: Rect)
    requires
        a == b,
    ensures
        layout_of(a) == layout_of(b),
{
}

} // verus!
