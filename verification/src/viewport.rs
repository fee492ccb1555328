//! The scrolled window of lines that fits the terminal.

use vstd::prelude::*;

verus! {

/// A rectangle of terminal cells.
#[derive(Debug, Clone, Copy, PartialEq, Eq, Structural)]
pub struct Area {
    pub x: u16,
    pub y: u16,
    pub width: u16,
    pub height: u16,
}

/// Where the window of displayed lines lies within all lines.
#[derive(Debug, Clone, Copy, PartialEq, Eq, Structural)]
pub struct Viewport {
    /// The full area allocated for the widget.
    pub area: Area,
    /// The area inside borders and padding.
    pub inner: Area,
    /// Number of lines that can be displayed.
    pub height: usize,
    /// Index of the first displayed line.
    pub offset: usize,
    /// Largest offset that still fills the window.
    pub max_offset: usize,
}

/// However a viewport is centred, its offset does not exceed its largest
/// offset, and its largest offset is the number of lines less the height, or
/// 0 where the height exceeds it.
pub proof fn lemma_centered_within(
    v: Viewport,
    focus_line: usize,
    total_lines: usize,
    reserved_lines: usize,
)
    ensures
        v.centered(focus_line, total_lines, reserved_lines).wf(),
        v.centered(focus_line, total_lines, reserved_lines).max_offset == minus(
            total_lines as int,
            v.centered(focus_line, total_lines, reserved_lines).height as int,
        ),
{
}

/// What a scrollbar needs to draw itself.
#[derive(Debug, Clone, Copy, PartialEq, Eq, Structural)]
pub struct ScrollbarGeometry {
    /// Number of positions that can be scrolled to.
    pub content_length: usize,
    /// Current position.
    pub position: usize,
    /// Number of lines that the window shows; the size of the thumb.
    pub viewport_length: usize,
}

/// `a - b`, or 0 where `b` exceeds `a`.
pub open spec fn minus(a: int, b: int) -> int {
    if a >= b {
        a - b
    } else {
        0
    }
}

/// The smaller of `a` and `b`.
pub open spec fn least(a: int, b: int) -> int {
    if a <= b {
        a
    } else {
        b
    }
}

/// Half of `height`, rounded up.
pub open spec fn half_up(height: int) -> int {
    (height + 1) / 2
}

impl Viewport {
    /// The viewport of a widget that has no area yet.
    pub open spec fn blank() -> Viewport {
        Viewport {
            area: Area { x: 0, y: 0, width: 0, height: 0 },
            inner: Area { x: 0, y: 0, width: 0, height: 0 },
            height: 0,
            offset: 0,
            max_offset: 0,
        }
    }

    /// Whether the offset does not exceed the largest offset.
    pub open spec fn wf(self) -> bool {
        self.offset <= self.max_offset
    }

    /// The height that is left of `height` when `reserved` lines are set
    /// aside.
    pub open spec fn usable_height(height: usize, reserved: usize) -> int {
        if height > 0 && reserved > 0 {
            minus(height as int, reserved as int)
        } else {
            height as int
        }
    }

    /// The viewport of a widget that occupies `area` and displays its lines
    /// in `inner`, scrolled to the top.
    pub open spec fn starting(area: Area, inner: Area) -> Viewport {
        Viewport { area, inner, height: inner.height as usize, offset: 0, max_offset: 0 }
    }

    /// This viewport after `reserved_lines` of its height were set aside and
    /// it was scrolled so that `focus_line` sits in the middle of the
    /// window: the offset is `focus_line` less half the height, rounded up,
    /// but neither below 0 nor above the largest offset, which is
    /// `total_lines` less the height, or 0.
    pub open spec fn centered(
        self,
        focus_line: usize,
        total_lines: usize,
        reserved_lines: usize,
    ) -> Viewport {
        let height = Self::usable_height(self.height, reserved_lines);
        let max_offset = minus(total_lines as int, height);
        Viewport {
            area: self.area,
            inner: self.inner,
            height: height as usize,
            offset: least(minus(focus_line as int, half_up(height)), max_offset) as usize,
            max_offset: max_offset as usize,
        }
    }

    /// Creates the viewport of a widget that occupies `area` and displays
    /// its lines in `inner`. It is scrolled to the top.
    pub fn new(area: Area, inner: Area) -> (r: Viewport)
        ensures
            r == Viewport::starting(area, inner),
            r.wf(),
    {
        Viewport { area, inner, height: inner.height as usize, offset: 0, max_offset: 0 }
    }

    /// Scrolls so that `focus_line` sits in the middle of the window, as far
    /// as the first and the last of the `total_lines` lines allow. Sets
    /// `reserved_lines` of the height aside first.
    pub fn center_on(self, focus_line: usize, total_lines: usize, reserved_lines: usize) -> (r:
        Viewport)
        ensures
            r == self.centered(focus_line, total_lines, reserved_lines),
            r.height == Self::usable_height(self.height, reserved_lines),
            r.max_offset == minus(total_lines as int, r.height as int),
            r.offset == least(
                minus(focus_line as int, half_up(r.height as int)),
                r.max_offset as int,
            ),
            r.wf(),
    {
        let height = if self.height > 0 && reserved_lines > 0 {
            self.height.saturating_sub(reserved_lines)
        } else {
            self.height
        };
        let center_line = height / 2 + height % 2;
        let wanted = focus_line.saturating_sub(center_line);
        let max_offset = total_lines.saturating_sub(height);
        let offset = if wanted <= max_offset {
            wanted
        } else {
            max_offset
        };
        Viewport { area: self.area, inner: self.inner, height, offset, max_offset }
    }

    /// Pulls an offset that has reached the largest offset back to what
    /// `total_lines` lines, and `extra_offset` lines beyond them, allow.
    pub fn clamp_offset(&mut self, total_lines: usize, extra_offset: usize)
        ensures
            final(self).area == old(self).area,
            final(self).inner == old(self).inner,
            final(self).height == old(self).height,
            final(self).max_offset == old(self).max_offset,
            final(self).offset == (if old(self).offset >= old(self).max_offset {
                least(
                    old(self).offset as int,
                    least(
                        minus(total_lines as int, old(self).height as int) + extra_offset,
                        usize::MAX as int,
                    ),
                )
            } else {
                old(self).offset as int
            }),
            final(self).offset <= old(self).offset,
            old(self).wf() ==> final(self).wf(),
    {
        if self.offset >= self.max_offset {
            let limit = total_lines.saturating_sub(self.height).saturating_add(extra_offset);
            if limit < self.offset {
                self.offset = limit;
            }
        }
    }

    /// Returns what a scrollbar beside `total_lines` lines shows, or `None`
    /// when nothing can be scrolled.
    pub fn scrollbar(&self, total_lines: usize) -> (r: Option<ScrollbarGeometry>)
        ensures
            r.is_none() == (self.height == 0 || self.max_offset == 0),
            r matches Some(g) ==> {
                &&& g.content_length == minus(total_lines as int, self.height as int)
                &&& g.position == self.offset
                &&& g.viewport_length == self.height
            },
    {
        if self.height == 0 || self.max_offset == 0 {
            None
        } else {
            Some(
                ScrollbarGeometry {
                    content_length: total_lines.saturating_sub(self.height),
                    position: self.offset,
                    viewport_length: self.height,
                },
            )
        }
    }
}

} // verus!
