use vstd::prelude::*;
use vstd::view::View as _;

verus! {

/// What the navigator is doing: running, gathering a pending key sequence,
/// or quitting.
pub enum State {
    Continue,
    Pending(Vec<u8>),
    Quit,
}

/// A direction among siblings.
#[derive(Clone, Copy, PartialEq, Eq, Structural)]
pub enum Direction {
    Prev,
    Next,
}

impl Direction {
    /// One step from `k`.
    pub fn go(&self, k: usize) -> (r: usize)
        requires
            *self is Prev ==> k > 0,
            *self is Next ==> k < usize::MAX,
        ensures
            r == (if *self is Prev { k - 1 } else { k + 1 }),
    {
        match self {
            Direction::Prev => k - 1,
            Direction::Next => k + 1,
        }
    }

    /// One step from `k` among `m` items, staying put at either end.
    pub fn go_sat(&self, k: usize, m: usize) -> (r: usize)
        requires
            *self is Next ==> m > 0,
        ensures
            r == (if *self is Prev && k != 0 {
                k - 1
            } else if *self is Next && k < m - 1 {
                k + 1
            } else {
                k as int
            }),
    {
        match self {
            Direction::Prev => if 0 != k {
                k - 1
            } else {
                k
            },
            Direction::Next => if k < m - 1 {
                k + 1
            } else {
                k
            },
        }
    }

    /// One step from `k` among `m` items, wrapping around at either end.
    pub fn go_wrap(&self, k: usize, m: usize) -> (r: usize)
        requires
            m > 0,
            *self is Next ==> k < usize::MAX,
        ensures
            r == (if *self is Prev && k == 0 {
                m - 1
            } else if *self is Next && k == m - 1 {
                0
            } else if *self is Prev {
                k - 1
            } else {
                k + 1
            }),
    {
        match self {
            Direction::Prev => if 0 == k {
                m - 1
            } else {
                self.go(k)
            },
            Direction::Next => if k == m - 1 {
                0
            } else {
                self.go(k)
            },
        }
    }
}

/// How far one scroll moves.
#[derive(Clone, Copy, PartialEq, Eq, Structural)]
pub enum ViewJumpBy {
    Line,
    Mouse,
    HalfWin,
    Win,
}

/// Lines one scroll `by` moves in a terminal of `rows` rows.
pub open spec fn jump_spec(by: ViewJumpBy, rows: int) -> int {
    match by {
        ViewJumpBy::Line => 1,
        ViewJumpBy::Mouse => 3,
        ViewJumpBy::HalfWin => rows / 2,
        ViewJumpBy::Win => rows - 1,
    }
}

/// A scrolled view over `total` lines; `rows` is the terminal's height
/// (given by the caller).
pub struct View {
    pub scroll: usize,
    pub total: std::ops::Range<usize>,
}

impl View {
    /// The lines on screen: all rows but two, from the scroll offset.
    pub fn visible(&self, rows: usize) -> (r: std::ops::Range<usize>)
        requires
            rows >= 2,
            self.scroll + rows <= usize::MAX,
        ensures
            r.start == self.scroll,
            r.end == self.scroll + rows - 2,
    {
        self.scroll..self.scroll + rows - 2
    }

    /// Lines one scroll `by` moves.
    pub fn jump_by(&self, by: ViewJumpBy, rows: usize) -> (r: usize)
        requires
            by is Win ==> rows > 0,
        ensures
            r == jump_spec(by, rows as int),
    {
        match by {
            ViewJumpBy::Line => 1,
            ViewJumpBy::Mouse => 3,
            ViewJumpBy::HalfWin => rows / 2,
            ViewJumpBy::Win => rows - 1,
        }
    }

    /// Scroll down, stopping on the last line.
    pub fn down(&mut self, by: ViewJumpBy, rows: usize)
        requires
            by is Win ==> rows > 0,
            old(self).total.end >= jump_spec(by, rows as int),
            old(self).total.end > 0,
        ensures
            final(self).total == old(self).total,
            final(self).scroll == (if old(self).scroll < old(self).total.end - jump_spec(
                by,
                rows as int,
            ) {
                old(self).scroll + jump_spec(by, rows as int)
            } else {
                old(self).total.end - 1
            }),
    {
        let by = self.jump_by(by, rows);
        let end = self.total.end;
        if self.scroll < end - by {
            self.scroll = self.scroll + by;
        } else {
            self.scroll = end - 1;
        }
    }

    /// Scroll up, stopping on the first line.
    pub fn up(&mut self, by: ViewJumpBy, rows: usize)
        requires
            by is Win ==> rows > 0,
        ensures
            final(self).total == old(self).total,
            final(self).scroll == (if jump_spec(by, rows as int) < old(self).scroll {
                old(self).scroll - jump_spec(by, rows as int)
            } else {
                0
            }),
    {
        let by = self.jump_by(by, rows);
        if by < self.scroll {
            self.scroll = self.scroll - by;
        } else {
            self.scroll = 0;
        }
    }
}

} // verus!
