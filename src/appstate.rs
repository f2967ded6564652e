//! Run-scoped search settings and counters.

use vstd::prelude::*;
use crate::squares::{grid_text, Square};
use crate::words::{push_char, text};

verus! {

/// How progress is reported as solutions are found.
#[derive(Debug, Clone, Copy, PartialEq, Eq, Structural)]
pub enum TraceStyle {
    /// Nothing.
    Silent,
    /// The first two letters of every hundredth solution.
    Short,
    /// Every solution in full.
    Full,
}

/// The search settings and its node counter.
pub struct AppState {
    /// Number of search nodes visited.
    pub nodes: usize,
    /// Most solutions to produce, if bounded.
    pub limit: Option<usize>,
    /// Progress trace style.
    pub trace: TraceStyle,
    /// Allow a word to appear more than once in a square.
    pub doubled: bool,
    /// Produce a square and its transposition both.
    pub transposed: bool,
}

impl Default for AppState {
    /// At most a thousand squares, no trace, no repeats, no transpositions.
    fn default() -> (r: Self)
        ensures
            r.nodes == 0,
            r.limit == Some(1000usize),
            r.trace == TraceStyle::Silent,
            !r.doubled,
            !r.transposed,
    {
        AppState {
            nodes: 0,
            limit: Some(1000),
            trace: TraceStyle::Silent,
            doubled: false,
            transposed: false,
        }
    }
}

/// The progress line for the `found`-th solution `g`, if one is due.
pub open spec fn trace_spec(style: TraceStyle, g: Seq<u32>, found: int) -> Option<Seq<char>> {
    match style {
        TraceStyle::Silent => None,
        TraceStyle::Short => if found % 100 == 0 {
            Some(text(g[0]).take(2))
        } else {
            None
        },
        TraceStyle::Full => Some(grid_text(g) + seq!['\n']),
    }
}

impl AppState {
    /// Settings for a new search, with no nodes visited yet.
    pub fn new(limit: Option<usize>, trace: TraceStyle, doubled: bool, transposed: bool) -> (r: Self)
        ensures
            r.nodes == 0,
            r.limit == limit,
            r.trace == trace,
            r.doubled == doubled,
            r.transposed == transposed,
    {
        AppState { nodes: 0, limit, trace, doubled, transposed }
    }

    /// The progress line to report when `s` is the `found`-th solution
    /// (counting from one), if the trace style asks for one.
    pub fn trace_line(&self, s: &Square, found: usize) -> (r: Option<String>)
        requires
            s.wf(),
        ensures
            match trace_spec(self.trace, s@, found as int) {
                Some(t) => r matches Some(x) && x@ == t,
                None => r is None,
            },
    {
        match self.trace {
            TraceStyle::Silent => None,
            TraceStyle::Short => {
                if found % 100 == 0 {
                    let cs = s.get_pos(0).chars();
                    let mut line = String::new();
                    push_char(&mut line, cs[0]);
                    push_char(&mut line, cs[1]);
                    assert(line@ =~= text(s@[0]).take(2));
                    Some(line)
                } else {
                    None
                }
            },
            TraceStyle::Full => {
                let mut line = s.as_string();
                push_char(&mut line, '\n');
                Some(line)
            },
        }
    }
}

} // verus!
