use vstd::prelude::*;

verus! {

/// A span of the input: `length` bytes from the byte offset `start`.
#[derive(PartialEq, Eq, Clone, Copy, Debug, Structural)]
pub struct Position {
    pub start: usize,
    pub length: usize,
}

impl Position {
    /// The offset just past the span.
    pub open spec fn spec_end(self) -> int {
        self.start + self.length
    }

    /// Whether every byte of `other` lies inside this span.
    pub open spec fn covers(self, other: Position) -> bool {
        self.start <= other.start && other.spec_end() <= self.spec_end()
    }

    /// The span from `self.start` to the later of the two ends.
    pub open spec fn spec_extend(self, other: Position) -> Position {
        Position {
            start: self.start,
            length: if other.spec_end() - self.start > self.length {
                (other.spec_end() - self.start) as usize
            } else {
                self.length
            },
        }
    }

    pub fn new(start: usize, length: usize) -> (r: Self)
        ensures
            r == (Position { start, length }),
    {
        Position { start, length }
    }

    /// The offset just past the span.
    pub fn end(&self) -> (r: usize)
        requires
            self.spec_end() <= usize::MAX,
        ensures
            r == self.spec_end(),
    {
        self.start + self.length
    }

    /// The smallest span that starts where this one starts and covers both
    /// this one and `pos`. `pos` must not end before this span starts.
    pub fn extend(&self, pos: &Self) -> (r: Self)
        requires
            pos.spec_end() <= usize::MAX,
            self.start <= pos.spec_end(),
        ensures
            r == self.spec_extend(*pos),
    {
        let reach = pos.start + pos.length - self.start;
        let length = if reach > self.length {
            reach
        } else {
            self.length
        };
        Self { start: self.start, length }
    }
}

} // verus!
