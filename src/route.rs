//! Route selection by two picks: the first pick and the second, then a shortest
//! path between where they stand.

use vstd::prelude::*;
use crate::hex::HexCoord;
use crate::map::{EntityHandle, WorldMap};
use crate::path::{is_shortest_walk, reachable};

verus! {

/// Where the entity `e` stands: the coordinate of its first entry in `locs`.
pub open spec fn located(locs: Seq<(EntityHandle, HexCoord)>, e: EntityHandle) -> Option<HexCoord>
    decreases locs.len(),
{
    if locs.len() == 0 {
        None
    } else if locs[0].0 == e {
        Some(locs[0].1)
    } else {
        located(locs.subrange(1, locs.len() as int), e)
    }
}

/// The coordinate where `e` stands according to `locs`, if it is listed.
pub fn locate(locs: &Vec<(EntityHandle, HexCoord)>, e: EntityHandle) -> (r: Option<HexCoord>)
    ensures
        r == located(locs@, e),
{
    let mut i: usize = 0;
    assert(locs@.subrange(0, locs@.len() as int) =~= locs@);
    while i < locs.len()
        invariant
            0 <= i <= locs@.len(),
            located(locs@, e) == located(locs@.subrange(i as int, locs@.len() as int), e),
        decreases locs@.len() - i,
    {
        proof {
            let rest = locs@.subrange(i as int, locs@.len() as int);
            assert(rest[0] == locs@[i as int]);
            assert(rest.subrange(1, rest.len() as int) =~= locs@.subrange(i + 1, locs@.len() as int));
        }
        if locs[i].0 == e {
            return Some(locs[i].1);
        }
        i = i + 1;
    }
    None
}

/// What a resolved selection highlights: a shortest path between the two picks'
/// cells, or nothing where a pick is missing or unlisted or no path joins them.
pub open spec fn route_highlight_ok(
    open: Set<HexCoord>,
    locs: Seq<(EntityHandle, HexCoord)>,
    first: Option<EntityHandle>,
    second: Option<EntityHandle>,
    h: Seq<HexCoord>,
) -> bool {
    match (first, second) {
        (Some(e1), Some(e2)) => match (located(locs, e1), located(locs, e2)) {
            (Some(a), Some(b)) => if reachable(open, a, b) {
                is_shortest_walk(open, h, a, b)
            } else {
                h.len() == 0
            },
            _ => h.len() == 0,
        },
        _ => h.len() == 0,
    }
}

/// The two picks of a route selection.
pub struct RoutePlanner {
    pub first: Option<EntityHandle>,
    pub second: Option<EntityHandle>,
}

impl RoutePlanner {
    /// A selection with no pick.
    pub fn new() -> (p: RoutePlanner)
        ensures
            p.first is None,
            p.second is None,
    {
        RoutePlanner { first: None, second: None }
    }

    /// Records a pick: the first where there is none yet, else the second, which
    /// completes the selection. Returns whether a route was chosen.
    pub fn submit_pick(&mut self, e: EntityHandle) -> (chosen: bool)
        ensures
            chosen == old(self).first is Some,
            !chosen ==> final(self).first == Some(e) && final(self).second == old(self).second,
            chosen ==> final(self).first == old(self).first && final(self).second == Some(e),
    {
        if self.first.is_none() {
            self.first = Some(e);
            false
        } else {
            self.second = Some(e);
            true
        }
    }

    /// Resolves a chosen route: looks up where both picks stand in `locs`, finds a
    /// shortest path between them on `map` and returns its cells for highlighting
    /// (none where a lookup fails or no path exists). The selection is cleared in
    /// every case.
    pub fn resolve(&mut self, map: &WorldMap, locs: &Vec<(EntityHandle, HexCoord)>) -> (h: Vec<HexCoord>)
        requires
            map.wf(),
        ensures
            final(self).first is None,
            final(self).second is None,
            route_highlight_ok(map@.dom(), locs@, old(self).first, old(self).second, h@),
    {
        let first = self.first;
        let second = self.second;
        self.first = None;
        self.second = None;
        match (first, second) {
            (Some(e1), Some(e2)) => {
                match (locate(locs, e1), locate(locs, e2)) {
                    (Some(a), Some(b)) => {
                        match map.find_path(a, b) {
                            Some(p) => p,
                            None => Vec::new(),
                        }
                    },
                    _ => Vec::new(),
                }
            },
            _ => Vec::new(),
        }
    }
}

} // verus!
