use vstd::prelude::*;

verus! {

/// A 1-based line number in a document.
#[derive(PartialEq, Eq, Debug, Clone, Copy)]
pub struct Line {
    n: usize,
}

impl Line {
    #[verifier::type_invariant]
    spec fn positive(self) -> bool {
        self.n >= 1
    }

    /// The line number as an integer (never 0).
    pub closed spec fn num(self) -> int {
        self.n as int
    }

    pub fn get(&self) -> (r: usize)
        ensures
            r == self.num(),
            r >= 1,
    {
        proof {
            use_type_invariant(self);
        }
        self.n
    }

    /// `Some` line for a positive number, `None` for 0.
    pub fn new(raw: usize) -> (r: Option<Line>)
        ensures
            raw == 0 <==> r is None,
            r matches Some(l) ==> l.num() == raw,
    {
        if raw == 0 {
            None
        } else {
            Some(Line { n: raw })
        }
    }

    /// A line from a number the caller knows to be positive.
    pub fn unchecked(n: usize) -> (r: Line)
        requires
            n >= 1,
        ensures
            r.num() == n,
    {
        Line { n }
    }

    pub fn one() -> (r: Line)
        ensures
            r.num() == 1,
    {
        Line { n: 1 }
    }

    /// The absolute difference between two line numbers.
    pub fn distance(&self, other: &Line) -> (r: usize)
        ensures
            r == if self.num() >= other.num() {
                self.num() - other.num()
            } else {
                other.num() - self.num()
            },
    {
        let a = self.get();
        let b = other.get();
        if a >= b {
            a - b
        } else {
            b - a
        }
    }

    /// Subtract, but never go below line 1.
    pub fn saturating_sub(self, rhs: usize) -> (r: Line)
        ensures
            r.num() == if self.num() <= rhs {
                1
            } else {
                self.num() - rhs
            },
    {
        let val = self.get();
        if val <= rhs {
            Line::one()
        } else {
            Line { n: val - rhs }
        }
    }

    /// Add, saturating at `usize::MAX`.
    pub fn add(self, rhs: usize) -> (r: Line)
        ensures
            r.num() == if self.num() + rhs > usize::MAX {
                usize::MAX as int
            } else {
                self.num() + rhs
            },
    {
        let val = self.get();
        Line { n: val.saturating_add(rhs) }
    }

    /// Subtract; `None` where the result would not be a line.
    pub fn sub(self, rhs: usize) -> (r: Option<Line>)
        ensures
            self.num() <= rhs <==> r is None,
            r matches Some(l) ==> l.num() == self.num() - rhs,
    {
        let val = self.get();
        if val <= rhs {
            None
        } else {
            Line::new(val - rhs)
        }
    }

    /// `self < other` on line numbers.
    pub fn lt(&self, other: &Line) -> (r: bool)
        ensures
            r == (self.num() < other.num()),
    {
        self.get() < other.get()
    }

    /// The smaller of two lines.
    pub fn min(self, other: Line) -> (r: Line)
        ensures
            r.num() == if self.num() <= other.num() {
                self.num()
            } else {
                other.num()
            },
    {
        if self.get() <= other.get() {
            self
        } else {
            other
        }
    }
}

} // verus!
