//! What a node says about itself.

use vstd::prelude::*;
use vstd::string::*;

use crate::text::str_equal;

verus! {

/// What to report. There is nothing to choose.
#[derive(Debug, Clone, Copy, PartialEq, Eq, Structural)]
pub struct StatsOptions;

impl Default for StatsOptions {
    fn default() -> (r: Self)
        ensures
            r == StatsOptions,
    {
        StatsOptions
    }
}

/// Figures of a map.
#[derive(Debug, Clone, Copy, PartialEq, Eq, Structural)]
pub struct DMapStats {
    /// How many live entries there are.
    pub len: usize,
    /// How many bytes the live entries take.
    pub inuse: u64,
}

impl Default for DMapStats {
    fn default() -> (r: Self)
        ensures
            r.len == 0,
            r.inuse == 0,
    {
        DMapStats { len: 0, inuse: 0 }
    }
}

/// Figures of the maps, by name.
#[derive(Debug, PartialEq, Eq)]
pub struct Stats {
    pub dmaps: Vec<(String, DMapStats)>,
}

/// Name and figures of a map.
pub ghost struct FigureView {
    pub name: Seq<char>,
    pub stats: DMapStats,
}

impl View for Stats {
    type V = Seq<FigureView>;

    open spec fn view(&self) -> Seq<FigureView> {
        Seq::new(
            self.dmaps@.len(),
            |i: int| FigureView { name: self.dmaps@[i].0@, stats: self.dmaps@[i].1 },
        )
    }
}

impl Default for Stats {
    fn default() -> (r: Self)
        ensures
            r@ == Seq::<FigureView>::empty(),
    {
        let r = Stats { dmaps: Vec::new() };
        assert(r@ =~= Seq::<FigureView>::empty());
        r
    }
}

/// Where the first map with this name stands; the length where there is none.
pub open spec fn figure_index(s: Seq<FigureView>, name: Seq<char>, from: int) -> int
    decreases s.len() - from,
{
    if 0 <= from < s.len() && s[from].name != name {
        figure_index(s, name, from + 1)
    } else {
        from
    }
}

impl Stats {
    /// The figures of a map.
    pub fn of(&self, name: &str) -> (r: Option<DMapStats>)
        ensures
            ({
                let i = figure_index(self@, name@, 0);
                if i < self@.len() {
                    r == Some(self@[i].stats)
                } else {
                    r is None
                }
            }),
    {
        let mut i: usize = 0;
        while i < self.dmaps.len()
            invariant
                i <= self.dmaps@.len(),
                figure_index(self@, name@, 0) == figure_index(self@, name@, i as int),
            decreases self.dmaps@.len() - i,
        {
            if str_equal(self.dmaps[i].0.as_str(), name) {
                return Some(self.dmaps[i].1);
            }
            i = i + 1;
        }
        None
    }
}

} // verus!
