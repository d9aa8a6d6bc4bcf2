//! The text of a progress bar that follows an iteration: unbounded (a
//! growing row of stars) or bounded (stars and spaces between delimiters,
//! filling from the left, or from the right once the iteration runs
//! backwards).
use vstd::prelude::*;
use crate::text::{push_repeated, repeated, string_of};

verus! {

/// The direction in which a bounded bar fills.
#[derive(Clone, Copy, PartialEq, Eq, Debug)]
pub enum Op {
    LR,
    RL,
}

/// The text of a bounded bar at `pos.0` of `pos.1` steps.
pub open spec fn bar_text(op: Op, pos: (usize, usize), delim: (char, char)) -> Seq<char> {
    match op {
        Op::LR => seq![delim.0] + repeated('*', pos.0 as nat) + repeated(' ', (pos.1 - pos.0) as nat) + seq![delim.1],
        Op::RL => seq![delim.0] + repeated('*', (pos.1 - pos.0) as nat) + repeated(' ', pos.0 as nat) + seq![delim.1],
    }
}

impl Op {
    /// The bar at `pos.0` of `pos.1` steps, between the delimiters.
    pub fn apply(&self, pos: (usize, usize), delim: (char, char)) -> (r: String)
        requires
            pos.0 <= pos.1,
        ensures
            r@ == bar_text(*self, pos, delim),
    {
        let mut out: Vec<char> = Vec::new();
        out.push(delim.0);
        match self {
            Op::LR => {
                push_repeated(&mut out, '*', pos.0);
                push_repeated(&mut out, ' ', pos.1 - pos.0);
            },
            Op::RL => {
                push_repeated(&mut out, '*', pos.1 - pos.0);
                push_repeated(&mut out, ' ', pos.0);
            },
        }
        out.push(delim.1);
        proof {
            assert(out@ =~= bar_text(*self, pos, delim));
        }
        string_of(&out)
    }
}

/// A bar with no known end.
pub struct UnBounded {}

/// A bar of `size` steps between `delim`, filling in direction `dir`.
pub struct Bounded {
    pub size: usize,
    pub delim: (char, char),
    pub dir: Op,
}

impl UnBounded {
    /// The bar after `us` steps: that many stars.
    pub fn display_progress(&self, us: usize) -> (r: String)
        ensures
            r@ == repeated('*', us as nat),
    {
        let mut out: Vec<char> = Vec::new();
        push_repeated(&mut out, '*', us);
        proof {
            assert(out@ =~= repeated('*', us as nat));
        }
        string_of(&out)
    }
}

impl Bounded {
    /// The bar after `us` of `size` steps.
    pub fn display_progress(&self, us: usize) -> (r: String)
        requires
            us <= self.size,
        ensures
            r@ == bar_text(self.dir, (us, self.size), self.delim),
    {
        self.dir.apply((us, self.size), self.delim)
    }
}

/// An iteration with its step count and its bar.
pub struct Progress<Iter, B> {
    pub iter: Iter,
    pub i: usize,
    pub bound: B,
}

impl<Iter, B> Progress<Iter, B> {
    /// Follows `iter` with an unbounded bar, from step zero.
    pub fn new(iter: Iter) -> (r: Progress<Iter, UnBounded>)
        ensures
            r.iter == iter,
            r.i == 0,
    {
        Progress { iter, i: 0, bound: UnBounded {} }
    }
}

impl<Iter> Progress<Iter, UnBounded> {
    /// The bar for the current step, then one step further.
    pub fn step(&mut self) -> (r: String)
        requires
            old(self).i < usize::MAX,
        ensures
            r@ == repeated('*', old(self).i as nat),
            final(self).i == old(self).i + 1,
            final(self).iter == old(self).iter,
    {
        let r = self.bound.display_progress(self.i);
        self.i = self.i + 1;
        r
    }

    /// A bounded bar of `size` steps between `<` and `>`, filling from the left.
    pub fn bounded(self, size: usize) -> (r: Progress<Iter, Bounded>)
        ensures
            r.iter == self.iter,
            r.i == self.i,
            r.bound.size == size,
            r.bound.delim == ('<', '>'),
            r.bound.dir == Op::LR,
    {
        Progress { iter: self.iter, i: self.i, bound: Bounded { size, delim: ('<', '>'), dir: Op::LR } }
    }
}

impl<Iter> Progress<Iter, Bounded> {
    /// The same bar between other delimiters.
    pub fn with_delim(self, delim: (char, char)) -> (r: Self)
        ensures
            r.iter == self.iter,
            r.i == self.i,
            r.bound.size == self.bound.size,
            r.bound.dir == self.bound.dir,
            r.bound.delim == delim,
    {
        let mut s = self;
        s.bound.delim = delim;
        s
    }

    /// The bar for the current step, then one step further.
    pub fn step(&mut self) -> (r: String)
        requires
            old(self).i <= old(self).bound.size,
            old(self).i < usize::MAX,
        ensures
            r@ == bar_text(old(self).bound.dir, (old(self).i, old(self).bound.size), old(self).bound.delim),
            final(self).i == old(self).i + 1,
            final(self).bound == old(self).bound,
            final(self).iter == old(self).iter,
    {
        let r = self.bound.display_progress(self.i);
        self.i = self.i + 1;
        r
    }

    /// Steps backwards: the bar now fills from the right; its text for the
    /// current step, then one step further.
    pub fn step_back(&mut self) -> (r: String)
        requires
            old(self).i <= old(self).bound.size,
            old(self).i < usize::MAX,
        ensures
            final(self).bound.dir == Op::RL,
            final(self).bound.size == old(self).bound.size,
            final(self).bound.delim == old(self).bound.delim,
            r@ == bar_text(Op::RL, (old(self).i, old(self).bound.size), old(self).bound.delim),
            final(self).i == old(self).i + 1,
            final(self).iter == old(self).iter,
    {
        self.bound.dir = Op::RL;
        let r = self.bound.display_progress(self.i);
        self.i = self.i + 1;
        r
    }
}

} // verus!
