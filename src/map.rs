//! The spatial index: each grid cell mapped to the handle of the entity that
//! stands for it.

use vstd::prelude::*;
use crate::hex::{HexCoord, in_bounds, hex_distance, adjacent, COORD_LIMIT, RADIUS_LIMIT};

verus! {

/// An opaque handle of a game entity.
pub type EntityHandle = u64;

/// The cells of the world, each with the entity that stands for it. A coordinate
/// that is absent is no cell: impassable and non-existent.
pub struct WorldMap {
    cells: Vec<(HexCoord, EntityHandle)>,
}

pub open spec fn keys_unique(s: Seq<(HexCoord, EntityHandle)>) -> bool {
    forall|i: int, j: int| 0 <= i < s.len() && 0 <= j < s.len() && i != j ==> #[trigger] s[i].0 != #[trigger] s[j].0
}

pub open spec fn has_key(s: Seq<(HexCoord, EntityHandle)>, c: HexCoord) -> bool {
    exists|i: int| 0 <= i < s.len() && #[trigger] s[i].0 == c
}

/// `e` stands for a cell of `m` within one step of `at`.
pub open spec fn near_entity(m: Map<HexCoord, EntityHandle>, at: HexCoord, e: EntityHandle) -> bool {
    exists|c: HexCoord| hex_distance(at, c) <= 1 && #[trigger] m.contains_key(c) && m[c] == e
}

impl WorldMap {
    /// Keys are unique and every cell lies within the coordinate bound.
    pub closed spec fn wf(&self) -> bool {
        &&& keys_unique(self.cells@)
        &&& forall|i: int| 0 <= i < self.cells@.len() ==> in_bounds(#[trigger] self.cells@[i].0)
    }

    /// The map from each cell to its entity.
    pub closed spec fn view(&self) -> Map<HexCoord, EntityHandle> {
        Map::new(
            |c: HexCoord| has_key(self.cells@, c),
            |c: HexCoord| self.cells@[choose|i: int| 0 <= i < self.cells@.len() && #[trigger] self.cells@[i].0 == c].1,
        )
    }

    proof fn lemma_view_at(&self, i: int)
        requires
            self.wf(),
            0 <= i < self.cells@.len(),
        ensures
            self@.contains_key(self.cells@[i].0),
            self@[self.cells@[i].0] == self.cells@[i].1,
    {
        let c = self.cells@[i].0;
        assert(has_key(self.cells@, c));
        let j = choose|j: int| 0 <= j < self.cells@.len() && #[trigger] self.cells@[j].0 == c;
        assert(i == j);
    }

    /// Every cell of the map lies within the coordinate bound.
    pub proof fn lemma_cells_in_bounds(&self, c: HexCoord)
        requires
            self.wf(),
            self@.contains_key(c),
        ensures
            in_bounds(c),
    {
        assert(has_key(self.cells@, c));
    }

    pub fn new() -> (m: WorldMap)
        ensures
            m.wf(),
            m@ == Map::<HexCoord, EntityHandle>::empty(),
    {
        let m = WorldMap { cells: Vec::new() };
        assert(m@ =~= Map::<HexCoord, EntityHandle>::empty());
        m
    }

    /// The number of cells.
    pub fn len(&self) -> (n: usize)
        requires
            self.wf(),
        ensures
            n == self@.len(),
    {
        proof { self.lemma_len(); }
        self.cells.len()
    }

    proof fn lemma_len(&self)
        requires
            self.wf(),
        ensures
            self@.len() == self.cells@.len(),
        decreases self.cells@.len(),
    {
        let s = self.cells@;
        let keys = s.map_values(|p: (HexCoord, EntityHandle)| p.0);
        assert forall|i: int, j: int| 0 <= i < keys.len() && 0 <= j < keys.len() && i != j implies keys[i] != keys[j] by {
            assert(s[i].0 != s[j].0);
        }
        assert(keys.no_duplicates());
        keys.unique_seq_to_set();
        assert forall|c: HexCoord| #[trigger] keys.contains(c) <==> self@.dom().contains(c) by {
            if keys.contains(c) {
                let i = choose|i: int| 0 <= i < keys.len() && keys[i] == c;
                assert(s[i].0 == c);
            }
            if self@.dom().contains(c) {
                let i = choose|i: int| 0 <= i < s.len() && #[trigger] s[i].0 == c;
                assert(keys[i] == c);
            }
        }
        assert(keys.to_set() =~= self@.dom());
    }

    /// The index of the entry for `c`, if there is one.
    fn find(&self, c: HexCoord) -> (r: Option<usize>)
        requires
            self.wf(),
        ensures
            r is None <==> !self@.contains_key(c),
            r matches Some(i) ==> i < self.cells@.len() && self.cells@[i as int].0 == c,
    {
        let mut i: usize = 0;
        while i < self.cells.len()
            invariant
                0 <= i <= self.cells@.len(),
                forall|j: int| 0 <= j < i ==> #[trigger] self.cells@[j].0 != c,
            decreases self.cells@.len() - i,
        {
            if self.cells[i].0 == c {
                return Some(i);
            }
            i = i + 1;
        }
        None
    }

    /// The entity that stands for cell `c`, or `None` where there is no such cell.
    pub fn cell_at(&self, c: HexCoord) -> (r: Option<EntityHandle>)
        requires
            self.wf(),
        ensures
            r == (if self@.contains_key(c) { Some(self@[c]) } else { None::<EntityHandle> }),
    {
        match self.find(c) {
            Some(i) => {
                proof { self.lemma_view_at(i as int); }
                Some(self.cells[i].1)
            },
            None => None,
        }
    }

    /// Whether `c` is a cell of the map.
    pub fn contains(&self, c: HexCoord) -> (b: bool)
        requires
            self.wf(),
        ensures
            b == self@.contains_key(c),
    {
        self.find(c).is_some()
    }

    /// The cost of entering `c`: one step where it is a cell, impassable elsewhere.
    pub fn step_cost(&self, q: i32, r: i32) -> (cost: Option<u32>)
        requires
            self.wf(),
        ensures
            cost == (if self@.contains_key(HexCoord { q, r }) { Some(1u32) } else { None::<u32> }),
    {
        if self.contains(HexCoord { q, r }) {
            Some(1)
        } else {
            None
        }
    }

    /// Adds cell `c` standing for `e`. A coordinate that is already a cell, or that
    /// lies beyond the coordinate bound, is refused and the map left unchanged.
    pub fn insert(&mut self, c: HexCoord, e: EntityHandle) -> (added: bool)
        requires
            old(self).wf(),
        ensures
            final(self).wf(),
            added == (in_bounds(c) && !old(self)@.contains_key(c)),
            added ==> final(self)@ == old(self)@.insert(c, e),
            added ==> final(self)@.len() == old(self)@.len() + 1,
            !added ==> final(self)@ == old(self)@,
    {
        if c.q < -COORD_LIMIT || c.q > COORD_LIMIT
            || c.r < -COORD_LIMIT || c.r > COORD_LIMIT {
            return false;
        }
        if self.contains(c) {
            return false;
        }
        let ghost before = self@;
        let ghost old_cells = self.cells@;
        proof { self.lemma_len(); }
        self.cells.push((c, e));
        proof {
            let s = self.cells@;
            assert(s == old_cells.push((c, e)));
            assert forall|k: HexCoord| #[trigger] has_key(s, k) <==> (has_key(old_cells, k) || k == c) by {
                if has_key(s, k) {
                    let i = choose|i: int| 0 <= i < s.len() && #[trigger] s[i].0 == k;
                    if i < old_cells.len() {
                        assert(old_cells[i].0 == k);
                    }
                }
                if has_key(old_cells, k) {
                    let i = choose|i: int| 0 <= i < old_cells.len() && #[trigger] old_cells[i].0 == k;
                    assert(s[i].0 == k);
                }
                if k == c {
                    assert(s[s.len() - 1].0 == k);
                }
            }
            assert(!has_key(old_cells, c));
            assert(self.wf());
            assert forall|k: HexCoord| #[trigger] self@.contains_key(k) implies self@[k] == before.insert(c, e)[k] by {
                let i = choose|i: int| 0 <= i < s.len() && #[trigger] s[i].0 == k;
                self.lemma_view_at(i);
                if k != c {
                    assert(i < old_cells.len());
                    assert(has_key(old_cells, k));
                    let j = choose|j: int| 0 <= j < old_cells.len() && #[trigger] old_cells[j].0 == k;
                    assert(i == j) by {
                        assert(s[j].0 == k);
                    }
                }
            }
            assert(self@ =~= before.insert(c, e));
            self.lemma_len();
        }
        true
    }

    /// The cells of the hexagon of `radius` around `center`, standing for the
    /// entities `first_handle`, `first_handle + 1`, ... in the order that the grid
    /// lists the cells: each cell its own entity.
    pub fn hexagon(center: HexCoord, radius: u32, first_handle: EntityHandle) -> (m: WorldMap)
        requires
            -COORD_LIMIT + radius <= center.q <= COORD_LIMIT - radius,
            -COORD_LIMIT + radius <= center.r <= COORD_LIMIT - radius,
            radius <= RADIUS_LIMIT,
            first_handle + 3 * radius * (radius + 1) + 1 <= u64::MAX,
        ensures
            m.wf(),
            forall|c: HexCoord| #[trigger] m@.contains_key(c) <==> hex_distance(center, c) <= radius,
            m@.len() == 3 * radius * (radius + 1) + 1,
            forall|c: HexCoord| #[trigger] m@.contains_key(c)
                ==> first_handle <= m@[c] < first_handle + 3 * radius * (radius + 1) + 1,
            forall|c: HexCoord, d: HexCoord| #[trigger] m@.contains_key(c) && #[trigger] m@.contains_key(d) && c != d
                ==> m@[c] != m@[d],
    {
        let coords = center.hexagon(radius);
        let mut m = WorldMap::new();
        let mut i: usize = 0;
        while i < coords.len()
            invariant
                m.wf(),
                0 <= i <= coords@.len(),
                coords@.len() == 3 * radius * (radius + 1) + 1,
                coords@.no_duplicates(),
                first_handle + coords@.len() <= u64::MAX,
                -COORD_LIMIT + radius <= center.q <= COORD_LIMIT - radius,
                -COORD_LIMIT + radius <= center.r <= COORD_LIMIT - radius,
                forall|j: int| 0 <= j < coords@.len() ==> hex_distance(center, #[trigger] coords@[j]) <= radius,
                forall|c: HexCoord| #[trigger] m@.contains_key(c) <==> (exists|j: int| 0 <= j < i && coords@[j] == c),
                m@.len() == i,
                forall|c: HexCoord| #[trigger] m@.contains_key(c) ==> first_handle <= m@[c] < first_handle + i,
                forall|c: HexCoord, d: HexCoord| #[trigger] m@.contains_key(c) && #[trigger] m@.contains_key(d) && c != d
                    ==> m@[c] != m@[d],
            decreases coords@.len() - i,
        {
            let c = coords[i];
            proof {
                assert(hex_distance(center, coords@[i as int]) <= radius);
                assert(!(exists|j: int| 0 <= j < i && coords@[j] == c));
            }
            let ghost before = m@;
            m.insert(c, first_handle + i as u64);
            proof {
                assert(m@ == before.insert(c, (first_handle + i) as u64));
                assert forall|k: HexCoord| #[trigger] m@.contains_key(k) implies first_handle <= m@[k] < first_handle + i + 1 by {
                    if k != c {
                        assert(before.contains_key(k));
                    }
                }
                assert forall|k: HexCoord, d: HexCoord| #[trigger] m@.contains_key(k) && #[trigger] m@.contains_key(d) && k != d
                    implies m@[k] != m@[d] by {
                    if k != c && d != c {
                        assert(before.contains_key(k) && before.contains_key(d));
                    } else if k == c {
                        assert(before.contains_key(d));
                    } else {
                        assert(before.contains_key(k));
                    }
                }
                assert forall|k: HexCoord| #[trigger] m@.contains_key(k) <==> (exists|j: int| 0 <= j < i + 1 && coords@[j] == k) by {
                    if k == c {
                        assert(coords@[i as int] == k);
                    }
                }
            }
            i = i + 1;
        }
        proof {
            assert forall|c: HexCoord| #[trigger] m@.contains_key(c) <==> hex_distance(center, c) <= radius by {
                if hex_distance(center, c) <= radius {
                    assert(coords@.contains(c));
                }
            }
        }
        m
    }

    /// The cell for which `e` stands, if any.
    pub fn coord_of(&self, e: EntityHandle) -> (r: Option<HexCoord>)
        requires
            self.wf(),
        ensures
            r matches Some(c) ==> self@.contains_key(c) && self@[c] == e,
            r is None ==> forall|c: HexCoord| #[trigger] self@.contains_key(c) ==> self@[c] != e,
    {
        let mut i: usize = 0;
        while i < self.cells.len()
            invariant
                self.wf(),
                0 <= i <= self.cells@.len(),
                forall|j: int| 0 <= j < i ==> #[trigger] self.cells@[j].1 != e,
            decreases self.cells@.len() - i,
        {
            if self.cells[i].1 == e {
                proof { self.lemma_view_at(i as int); }
                return Some(self.cells[i].0);
            }
            i = i + 1;
        }
        proof {
            assert forall|c: HexCoord| #[trigger] self@.contains_key(c) implies self@[c] != e by {
                let j = choose|j: int| 0 <= j < self.cells@.len() && #[trigger] self.cells@[j].0 == c;
                self.lemma_view_at(j);
            }
        }
        None
    }

    /// The entities of the cells within one step of `at` that belong to the map:
    /// what is marked around a cell where a building is about to be placed. Empty
    /// where `at` is no cell.
    pub fn selection_around(&self, at: HexCoord) -> (r: Vec<EntityHandle>)
        requires
            self.wf(),
        ensures
            !self@.contains_key(at) ==> r@.len() == 0,
            forall|k: int| 0 <= k < r@.len() ==> near_entity(self@, at, #[trigger] r@[k]),
            self@.contains_key(at) ==> forall|c: HexCoord| hex_distance(at, c) <= 1 && #[trigger] self@.contains_key(c)
                ==> r@.contains(self@[c]),
    {
        let mut r: Vec<EntityHandle> = Vec::new();
        if !self.contains(at) {
            return r;
        }
        proof { self.lemma_cells_in_bounds(at); }
        let ring = at.ring(1);
        let mut i: usize = 0;
        while i < ring.len()
            invariant
                self.wf(),
                self@.contains_key(at),
                0 <= i <= ring@.len(),
                forall|j: int| 0 <= j < ring@.len() ==> hex_distance(at, #[trigger] ring@[j]) == 1,
                forall|k: int| 0 <= k < r@.len() ==> near_entity(self@, at, #[trigger] r@[k]),
                forall|j: int| 0 <= j < i && self@.contains_key(#[trigger] ring@[j]) ==> r@.contains(self@[ring@[j]]),
            decreases ring@.len() - i,
        {
            let c = ring[i];
            match self.cell_at(c) {
                Some(e) => {
                    let ghost before = r@;
                    r.push(e);
                    proof {
                        assert(r@[r@.len() - 1] == e);
                        assert forall|k: int| 0 <= k < r@.len() implies near_entity(self@, at, #[trigger] r@[k]) by {
                            if k < before.len() {
                                assert(r@[k] == before[k]);
                            } else {
                                assert(hex_distance(at, ring@[i as int]) == 1);
                                assert(self@.contains_key(c) && self@[c] == r@[k]);
                            }
                        }
                        assert forall|j: int| 0 <= j < i + 1 && self@.contains_key(#[trigger] ring@[j]) implies r@.contains(self@[ring@[j]]) by {
                            if j < i {
                                let k = choose|k: int| 0 <= k < before.len() && before[k] == self@[ring@[j]];
                                assert(r@[k] == before[k]);
                            } else {
                                assert(r@[r@.len() - 1] == self@[ring@[j]]);
                            }
                        }
                    }
                },
                None => {},
            }
            i = i + 1;
        }
        let here = self.cell_at(at);
        match here {
            Some(e) => {
                let ghost before = r@;
                r.push(e);
                proof {
                    assert(r@[r@.len() - 1] == e);
                    assert forall|k: int| 0 <= k < r@.len() implies near_entity(self@, at, #[trigger] r@[k]) by {
                        if k < before.len() {
                            assert(r@[k] == before[k]);
                        } else {
                            assert(hex_distance(at, at) == 0);
                            assert(self@.contains_key(at) && self@[at] == r@[k]);
                        }
                    }
                    assert forall|c: HexCoord| hex_distance(at, c) <= 1 && #[trigger] self@.contains_key(c)
                        implies r@.contains(self@[c]) by {
                        if c == at {
                            assert(r@[r@.len() - 1] == self@[c]);
                        } else {
                            assert(hex_distance(at, c) == 1);
                            assert(ring@.contains(c));
                            let j = choose|j: int| 0 <= j < ring@.len() && ring@[j] == c;
                            let k = choose|k: int| 0 <= k < before.len() && before[k] == self@[ring@[j]];
                            assert(r@[k] == before[k]);
                        }
                    }
                }
            },
            None => {},
        }
        r
    }

    /// The cells of the map adjacent to `c`, in the grid's neighbour order: at most
    /// six, none where `c` lies beyond the coordinate bound.
    pub fn neighbors(&self, c: HexCoord) -> (r: Vec<HexCoord>)
        requires
            self.wf(),
        ensures
            r@.len() <= 6,
            r@.no_duplicates(),
            forall|k: int| 0 <= k < r@.len() ==> adjacent(c, #[trigger] r@[k]) && self@.contains_key(r@[k]),
            in_bounds(c) ==> forall|d: HexCoord| adjacent(c, d) && #[trigger] self@.contains_key(d) ==> r@.contains(d),
    {
        let mut r: Vec<HexCoord> = Vec::new();
        if c.q < -COORD_LIMIT || c.q > COORD_LIMIT || c.r < -COORD_LIMIT || c.r > COORD_LIMIT {
            return r;
        }
        let all = c.neighbors();
        let mut i: usize = 0;
        while i < all.len()
            invariant
                self.wf(),
                in_bounds(c),
                0 <= i <= 6,
                all@.len() == 6,
                forall|j: int| 0 <= j < 6 ==> #[trigger] all@[j] == crate::hex::offset_by(c, crate::hex::neighbor_offsets()[j]),
                forall|j: int| 0 <= j < 6 ==> adjacent(c, #[trigger] all@[j]),
                r@.len() <= i,
                r@.no_duplicates(),
                forall|k: int| 0 <= k < r@.len() ==> exists|j: int| 0 <= j < i && all@[j] == #[trigger] r@[k],
                forall|k: int| 0 <= k < r@.len() ==> adjacent(c, #[trigger] r@[k]) && self@.contains_key(r@[k]),
                forall|j: int| 0 <= j < i && self@.contains_key(#[trigger] all@[j]) ==> r@.contains(all@[j]),
            decreases 6 - i,
        {
            let d = all[i];
            if self.contains(d) {
                let ghost before = r@;
                proof {
                    assert(!before.contains(d)) by {
                        if before.contains(d) {
                            let k = choose|k: int| 0 <= k < before.len() && before[k] == d;
                            let j = choose|j: int| 0 <= j < i && all@[j] == before[k];
                            assert(all@[j] == all@[i as int]);
                            assert(all@[j] == crate::hex::offset_by(c, crate::hex::neighbor_offsets()[j]));
                            assert(all@[i as int] == crate::hex::offset_by(c, crate::hex::neighbor_offsets()[i as int]));
                        }
                    }
                }
                r.push(d);
                proof {
                    assert forall|k: int| 0 <= k < r@.len() implies exists|j: int| 0 <= j < i + 1 && all@[j] == #[trigger] r@[k] by {
                        if k < before.len() {
                            assert(r@[k] == before[k]);
                        } else {
                            assert(all@[i as int] == r@[k]);
                        }
                    }
                    assert forall|j: int| 0 <= j < i + 1 && self@.contains_key(#[trigger] all@[j]) implies r@.contains(all@[j]) by {
                        if j < i {
                            let k = choose|k: int| 0 <= k < before.len() && before[k] == all@[j];
                            assert(r@[k] == before[k]);
                        } else {
                            assert(r@[r@.len() - 1] == all@[j]);
                        }
                    }
                }
            }
            i = i + 1;
        }
        proof {
            assert forall|d: HexCoord| adjacent(c, d) && #[trigger] self@.contains_key(d) implies r@.contains(d) by {
                let dq = d.q - c.q;
                let dr = d.r - c.r;
                let j: int = if dq == 1 && dr == -1 { 0 } else if dq == 0 && dr == -1 { 1 } else if dq == -1 && dr == 0 { 2 }
                    else if dq == -1 && dr == 1 { 3 } else if dq == 0 && dr == 1 { 4 } else { 5 };
                assert(all@[j] == crate::hex::offset_by(c, crate::hex::neighbor_offsets()[j]));
                assert(all@[j] == d);
            }
        }
        r
    }
}

} // verus!
