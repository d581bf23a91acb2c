//! A uniform grid over prop collision brushes, so that a swept box only
//! tests the brushes near it. Each brush is filed under the grid cells
//! its box covers, or in an overflow list when it covers too many; a
//! query gathers the brushes of the cells it covers.
use vstd::prelude::*;

use std::collections::{BTreeMap, BTreeSet};

use super::locate::grid_cell_count;

verus! {

broadcast use vstd::std_specs::btree::group_btree_axioms, vstd::laws_cmp::group_laws_cmp;

/// A box of grid cells: those from `min` to `max` on every axis, both
/// included.
#[derive(Debug, Clone, Copy, PartialEq, Eq)]
pub struct CellBox {
    pub min: [i32; 3],
    pub max: [i32; 3],
}

/// A brush covering more cells than this goes to the overflow list.
pub const PROP_GRID_MAX_CELLS_PER_BRUSH: usize = 512;

/// A query covering more cells than this returns every brush.
pub const PROP_GRID_MAX_QUERY_CELLS: usize = 4096;

/// Whether cell `c` lies in box `b`.
pub open spec fn spec_in_box(b: CellBox, c: (i32, i32, i32)) -> bool {
    &&& b.min[0] <= c.0 <= b.max[0]
    &&& b.min[1] <= c.1 <= b.max[1]
    &&& b.min[2] <= c.2 <= b.max[2]
}

/// How many cells box `b` covers, when no axis runs backwards.
pub open spec fn spec_box_cells(b: CellBox) -> int {
    (b.max[0] - b.min[0] + 1) * (b.max[1] - b.min[1] + 1) * (b.max[2] - b.min[2] + 1)
}

/// Whether no axis of box `b` runs backwards.
pub open spec fn spec_box_ok(b: CellBox) -> bool {
    b.min[0] <= b.max[0] && b.min[1] <= b.max[1] && b.min[2] <= b.max[2]
}

/// Whether a brush with cell box `b` is filed under its cells (rather
/// than in the overflow list): it has a box, and the box covers at most
/// `PROP_GRID_MAX_CELLS_PER_BRUSH` cells.
pub open spec fn spec_gridded(b: Option<CellBox>) -> bool {
    b matches Some(x) && spec_box_ok(x) && spec_box_cells(x) <= PROP_GRID_MAX_CELLS_PER_BRUSH
}

/// The grid: brush indices by cell, the overflow list, and how many
/// brushes it indexes.
#[derive(Debug, Clone, PartialEq, Eq)]
pub struct PropGrid {
    pub cells: BTreeMap<(i32, i32, i32), Vec<usize>>,
    pub overflow: Vec<usize>,
    pub brush_count: usize,
}

/// Cell `c` lists brush `k`.
pub open spec fn spec_listed(cells: Map<(i32, i32, i32), Vec<usize>>, c: (i32, i32, i32), k: usize) -> bool {
    cells.contains_key(c) && cells[c]@.contains(k)
}

impl PropGrid {
    /// Every brush index the grid holds names one of its brushes.
    pub open spec fn wf(&self) -> bool {
        &&& forall|c: (i32, i32, i32), k: usize| #[trigger] spec_listed(self.cells@, c, k) ==> k < self.brush_count
        &&& forall|k: usize| #[trigger] self.overflow@.contains(k) ==> k < self.brush_count
    }

    /// The grid indexes the brushes whose cell boxes are `boxes`, and
    /// nothing else: a cell lists a brush exactly when the brush is
    /// gridded and the cell lies in its box; the overflow list holds
    /// exactly the brushes that are not gridded, in increasing order.
    pub open spec fn indexes(&self, boxes: Seq<Option<CellBox>>) -> bool {
        &&& self.wf()
        &&& self.brush_count == boxes.len()
        &&& forall|k: int, c: (i32, i32, i32)|
            0 <= k < boxes.len() ==> (#[trigger] spec_listed(self.cells@, c, k as usize) <==> spec_gridded(boxes[k])
                && spec_in_box(boxes[k]->0, c))
        &&& forall|k: usize| #[trigger] self.overflow@.contains(k) <==> (k < boxes.len() && !spec_gridded(boxes[k as int]))
        &&& forall|i: int, j: int| 0 <= i < j < self.overflow@.len() ==> self.overflow@[i] < self.overflow@[j]
    }
}

/// Files brush `k` under cell `c`.
fn file_under(cells: &mut BTreeMap<(i32, i32, i32), Vec<usize>>, c: (i32, i32, i32), k: usize)
    ensures
        spec_listed(final(cells)@, c, k),
        forall|d: (i32, i32, i32), j: usize| spec_listed(old(cells)@, d, j) ==> spec_listed(final(cells)@, d, j),
        forall|d: (i32, i32, i32), j: usize| spec_listed(final(cells)@, d, j) ==> spec_listed(old(cells)@, d, j) || (d == c && j == k),
{
    let ghost before = cells@;
    let mut list = match cells.remove(&c) {
        Some(v) => v,
        None => Vec::new(),
    };
    let ghost old_list = list@;
    list.push(k);
    cells.insert(c, list);
    proof {
        assert(cells@[c]@ == old_list.push(k));
        assert(cells@[c]@[old_list.len() as int] == k);
        assert forall|d: (i32, i32, i32), j: usize| spec_listed(before, d, j) implies spec_listed(cells@, d, j) by {
            if d == c {
                let i = choose|i: int| 0 <= i < before[c]@.len() && before[c]@[i] == j;
                assert(cells@[c]@[i] == j);
            }
        }
        assert forall|d: (i32, i32, i32), j: usize| spec_listed(cells@, d, j) implies spec_listed(before, d, j) || (d == c && j
            == k) by {
            if d == c && j != k {
                let i = choose|i: int| 0 <= i < cells@[c]@.len() && cells@[c]@[i] == j;
                assert(i < old_list.len());
                assert(old_list[i] == j);
            }
        }
    }
}


/// Whether cell `c` of box `b` comes before `(x, y, z)` in the filing
/// order (x, then y, then z).
pub open spec fn spec_filed_before(b: CellBox, c: (i32, i32, i32), x: int, y: int, z: int) -> bool {
    spec_in_box(b, c) && (c.0 < x || (c.0 == x && (c.1 < y || (c.1 == y && c.2 < z))))
}

/// Files brush `k` under every cell of box `b`.
fn file_box(cells: &mut BTreeMap<(i32, i32, i32), Vec<usize>>, b: CellBox, k: usize)
    requires
        spec_box_ok(b),
    ensures
        forall|c: (i32, i32, i32)| spec_in_box(b, c) ==> #[trigger] spec_listed(final(cells)@, c, k),
        forall|d: (i32, i32, i32), j: usize| spec_listed(old(cells)@, d, j) ==> spec_listed(final(cells)@, d, j),
        forall|d: (i32, i32, i32), j: usize| spec_listed(final(cells)@, d, j) ==> spec_listed(old(cells)@, d, j) || (j == k
            && spec_in_box(b, d)),
{
    let ghost start = cells@;
    let mut x: i64 = b.min[0] as i64;
    while x <= b.max[0] as i64
        invariant
            spec_box_ok(b),
            b.min[0] <= x <= b.max[0] + 1,
            forall|c: (i32, i32, i32)| spec_filed_before(b, c, x as int, i32::MIN as int, i32::MIN as int) ==> #[trigger] spec_listed(cells@, c, k),
            forall|d: (i32, i32, i32), j: usize| spec_listed(start, d, j) ==> spec_listed(cells@, d, j),
            forall|d: (i32, i32, i32), j: usize| spec_listed(cells@, d, j) ==> spec_listed(start, d, j) || (j == k && spec_in_box(b, d)),
        decreases b.max[0] + 1 - x,
    {
        let mut y: i64 = b.min[1] as i64;
        while y <= b.max[1] as i64
            invariant
                spec_box_ok(b),
                b.min[0] <= x <= b.max[0],
                b.min[1] <= y <= b.max[1] + 1,
                forall|c: (i32, i32, i32)| spec_filed_before(b, c, x as int, y as int, i32::MIN as int) ==> #[trigger] spec_listed(cells@, c, k),
                forall|d: (i32, i32, i32), j: usize| spec_listed(start, d, j) ==> spec_listed(cells@, d, j),
                forall|d: (i32, i32, i32), j: usize| spec_listed(cells@, d, j) ==> spec_listed(start, d, j) || (j == k && spec_in_box(b, d)),
            decreases b.max[1] + 1 - y,
        {
            let mut z: i64 = b.min[2] as i64;
            while z <= b.max[2] as i64
                invariant
                    spec_box_ok(b),
                    b.min[0] <= x <= b.max[0],
                    b.min[1] <= y <= b.max[1],
                    b.min[2] <= z <= b.max[2] + 1,
                    forall|c: (i32, i32, i32)| spec_filed_before(b, c, x as int, y as int, z as int) ==> #[trigger] spec_listed(cells@, c, k),
                    forall|d: (i32, i32, i32), j: usize| spec_listed(start, d, j) ==> spec_listed(cells@, d, j),
                    forall|d: (i32, i32, i32), j: usize| spec_listed(cells@, d, j) ==> spec_listed(start, d, j) || (j == k && spec_in_box(b, d)),
                decreases b.max[2] + 1 - z,
            {
                let c = (x as i32, y as i32, z as i32);
                file_under(cells, c, k);
                proof {
                    assert forall|e: (i32, i32, i32)| spec_filed_before(b, e, x as int, y as int, z + 1) implies #[trigger] spec_listed(cells@, e, k) by {
                        if e != c {
                            assert(spec_filed_before(b, e, x as int, y as int, z as int));
                        }
                    }
                }
                z = z + 1;
            }
            proof {
                assert forall|e: (i32, i32, i32)| spec_filed_before(b, e, x as int, y + 1, i32::MIN as int) implies #[trigger] spec_listed(cells@, e, k) by {
                    assert(spec_filed_before(b, e, x as int, y as int, z as int));
                }
            }
            y = y + 1;
        }
        proof {
            assert forall|e: (i32, i32, i32)| spec_filed_before(b, e, x + 1, i32::MIN as int, i32::MIN as int) implies #[trigger] spec_listed(cells@, e, k) by {
                assert(spec_filed_before(b, e, x as int, y as int, i32::MIN as int));
            }
        }
        x = x + 1;
    }
    proof {
        assert forall|c: (i32, i32, i32)| spec_in_box(b, c) implies #[trigger] spec_listed(cells@, c, k) by {
            assert(spec_filed_before(b, c, x as int, i32::MIN as int, i32::MIN as int));
        }
    }
}

impl PropGrid {
    /// The grid over brushes whose cell boxes are `boxes` (none for a
    /// brush whose bounds have no cells).
    pub fn from_boxes(boxes: &[Option<CellBox>]) -> (r: PropGrid)
        ensures
            r.indexes(boxes@),
    {
        let mut cells: BTreeMap<(i32, i32, i32), Vec<usize>> = BTreeMap::new();
        let mut overflow: Vec<usize> = Vec::new();
        let mut k: usize = 0;
        while k < boxes.len()
            invariant
                k <= boxes.len(),
                forall|j: int, c: (i32, i32, i32)|
                    0 <= j < k && spec_gridded(boxes@[j]) && spec_in_box(boxes@[j]->0, c) ==> #[trigger] spec_listed(
                        cells@,
                        c,
                        j as usize,
                    ),
                forall|j: int| 0 <= j < k && !spec_gridded(#[trigger] boxes@[j]) ==> overflow@.contains(j as usize),
                forall|c: (i32, i32, i32), j: usize| #[trigger] spec_listed(cells@, c, j) ==> j < k && spec_gridded(boxes@[j as int])
                    && spec_in_box(boxes@[j as int]->0, c),
                forall|j: usize| #[trigger] overflow@.contains(j) ==> j < k && !spec_gridded(boxes@[j as int]),
                forall|i: int, j: int| 0 <= i < j < overflow@.len() ==> overflow@[i] < overflow@[j],
                forall|i: int| 0 <= i < overflow@.len() ==> overflow@[i] < k,
            decreases boxes.len() - k,
        {
            let ghost before_cells = cells@;
            let ghost before_overflow = overflow@;
            let filed = match boxes[k] {
                Some(b) => match grid_cell_count(b.min, b.max) {
                    Some(n) => if n <= PROP_GRID_MAX_CELLS_PER_BRUSH {
                        file_box(&mut cells, b, k);
                        true
                    } else {
                        false
                    },
                    None => false,
                },
                None => false,
            };
            if !filed {
                overflow.push(k);
            }
            proof {
                assert(filed == spec_gridded(boxes@[k as int]));
                if filed {
                    assert(overflow@ == before_overflow);
                } else {
                    assert(overflow@ == before_overflow.push(k));
                }
                assert forall|j: usize| #[trigger] overflow@.contains(j) implies j < k + 1 && !spec_gridded(boxes@[j as int]) by {
                    if j != k {
                        let i = choose|i: int| 0 <= i < overflow@.len() && overflow@[i] == j;
                        assert(i < before_overflow.len());
                        assert(before_overflow[i] == j);
                        assert(before_overflow.contains(j));
                    }
                }
                assert forall|j: int| 0 <= j < k + 1 && !spec_gridded(#[trigger] boxes@[j]) implies overflow@.contains(j as usize) by {
                    if j < k && !filed {
                        let i = choose|i: int| 0 <= i < before_overflow.len() && before_overflow[i] == j as usize;
                        assert(overflow@[i] == j as usize);
                    }
                    if j == k {
                        assert(overflow@[before_overflow.len() as int] == k);
                    }
                }
            }
            k = k + 1;
        }
        let r = PropGrid { cells, overflow, brush_count: boxes.len() };
        proof {
            assert forall|j: int, c: (i32, i32, i32)|
                0 <= j < boxes@.len() implies (#[trigger] spec_listed(r.cells@, c, j as usize) <==> spec_gridded(boxes@[j])
                    && spec_in_box(boxes@[j]->0, c)) by {
                if spec_gridded(boxes@[j]) && spec_in_box(boxes@[j]->0, c) {
                    assert(spec_listed(r.cells@, c, j as usize));
                }
            }
            assert forall|j: usize| #[trigger] r.overflow@.contains(j) <== (j < boxes@.len() && !spec_gridded(boxes@[j as int])) by {
                if j < boxes@.len() && !spec_gridded(boxes@[j as int]) {
                    assert(!spec_gridded(boxes@[(j as int)]));
                }
            }
        }
        r
    }
}


/// The brushes listed under the cells of `q` filed before `(x, y, z)`.
pub open spec fn spec_gathered(
    cells: Map<(i32, i32, i32), Vec<usize>>,
    q: CellBox,
    x: int,
    y: int,
    z: int,
) -> Set<usize> {
    Set::new(|k: usize| exists|c: (i32, i32, i32)| spec_filed_before(q, c, x, y, z) && #[trigger] spec_listed(cells, c, k))
}

/// Adds every element of `v` to `set`.
fn insert_all(set: &mut BTreeSet<usize>, v: &Vec<usize>)
    ensures
        final(set)@ == old(set)@.union(v@.to_set()),
{
    let ghost start = set@;
    let mut i: usize = 0;
    while i < v.len()
        invariant
            i <= v.len(),
            set@ == start.union(v@.take(i as int).to_set()),
        decreases v.len() - i,
    {
        set.insert(v[i]);
        proof {
            assert(v@.take(i + 1) == v@.take(i as int).push(v@[i as int]));
            assert(v@.take(i + 1).to_set() == v@.take(i as int).to_set().insert(v@[i as int])) by {
                v@.take(i as int).lemma_push_to_set_commute(v@[i as int]);
            }
        }
        i = i + 1;
    }
    assert(v@.take(i as int) == v@);
}

impl PropGrid {
    /// The brushes a query over cell box `q` returns: none when the grid
    /// is empty; every brush when `q` is missing or covers more than
    /// `PROP_GRID_MAX_QUERY_CELLS` cells; else the overflow brushes and
    /// those listed under the cells of `q`.
    pub open spec fn spec_query(&self, q: Option<CellBox>) -> Set<usize> {
        if self.brush_count == 0 {
            Set::empty()
        } else if !(q matches Some(b) && spec_box_ok(b) && spec_box_cells(b) <= PROP_GRID_MAX_QUERY_CELLS) {
            Set::new(|k: usize| k < self.brush_count)
        } else {
            self.overflow@.to_set().union(
                Set::new(|k: usize| exists|c: (i32, i32, i32)| spec_in_box(q->0, c) && #[trigger] spec_listed(self.cells@, c, k)),
            )
        }
    }

    /// The candidate brushes for a box covering the cells `q` (none when
    /// its bounds have no cells), in increasing order.
    pub fn query(&self, q: Option<CellBox>) -> (r: BTreeSet<usize>)
        ensures
            r@ == self.spec_query(q),
    {
        let mut set: BTreeSet<usize> = BTreeSet::new();
        if self.brush_count == 0 {
            return set;
        }
        let b = match q {
            Some(b) => match grid_cell_count(b.min, b.max) {
                Some(n) => if n <= PROP_GRID_MAX_QUERY_CELLS {
                    b
                } else {
                    return self.all_brushes();
                },
                None => return self.all_brushes(),
            },
            None => return self.all_brushes(),
        };
        insert_all(&mut set, &self.overflow);
        proof {
            assert(set@ == self.overflow@.to_set());
        }
        let ghost base = self.overflow@.to_set();
        let mut x: i64 = b.min[0] as i64;
        while x <= b.max[0] as i64
            invariant
                spec_box_ok(b),
                b.min[0] <= x <= b.max[0] + 1,
                set@ == base.union(spec_gathered(self.cells@, b, x as int, i32::MIN as int, i32::MIN as int)),
            decreases b.max[0] + 1 - x,
        {
            let mut y: i64 = b.min[1] as i64;
            while y <= b.max[1] as i64
                invariant
                    spec_box_ok(b),
                    b.min[0] <= x <= b.max[0],
                    b.min[1] <= y <= b.max[1] + 1,
                    set@ == base.union(spec_gathered(self.cells@, b, x as int, y as int, i32::MIN as int)),
                decreases b.max[1] + 1 - y,
            {
                let mut z: i64 = b.min[2] as i64;
                while z <= b.max[2] as i64
                    invariant
                        spec_box_ok(b),
                        b.min[0] <= x <= b.max[0],
                        b.min[1] <= y <= b.max[1],
                        b.min[2] <= z <= b.max[2] + 1,
                        set@ == base.union(spec_gathered(self.cells@, b, x as int, y as int, z as int)),
                    decreases b.max[2] + 1 - z,
                {
                    let c = (x as i32, y as i32, z as i32);
                    let ghost before = set@;
                    match self.cells.get(&c) {
                        Some(v) => {
                            insert_all(&mut set, v);
                        },
                        None => {},
                    }
                    proof {
                        let g0 = spec_gathered(self.cells@, b, x as int, y as int, z as int);
                        let g1 = spec_gathered(self.cells@, b, x as int, y as int, z + 1);
                        assert forall|k: usize| g1.contains(k) <==> g0.contains(k) || spec_listed(self.cells@, c, k) by {
                            if g1.contains(k) {
                                let e = choose|e: (i32, i32, i32)| spec_filed_before(b, e, x as int, y as int, z + 1) && #[trigger] spec_listed(self.cells@, e, k);
                                if e != c {
                                    assert(spec_filed_before(b, e, x as int, y as int, z as int));
                                }
                            }
                            if spec_listed(self.cells@, c, k) {
                                assert(spec_filed_before(b, c, x as int, y as int, z + 1));
                            }
                        }
                        assert(set@ =~= base.union(g1));
                    }
                    z = z + 1;
                }
                proof {
                    assert(spec_gathered(self.cells@, b, x as int, y as int, z as int) =~= spec_gathered(self.cells@, b, x as int, y + 1, i32::MIN as int)) by {
                        assert forall|k: usize| spec_gathered(self.cells@, b, x as int, y + 1, i32::MIN as int).contains(k) implies spec_gathered(self.cells@, b, x as int, y as int, z as int).contains(k) by {
                            let e = choose|e: (i32, i32, i32)| spec_filed_before(b, e, x as int, y + 1, i32::MIN as int) && #[trigger] spec_listed(self.cells@, e, k);
                            assert(spec_filed_before(b, e, x as int, y as int, z as int));
                        }
                        assert forall|k: usize| spec_gathered(self.cells@, b, x as int, y as int, z as int).contains(k) implies spec_gathered(self.cells@, b, x as int, y + 1, i32::MIN as int).contains(k) by {
                            let e = choose|e: (i32, i32, i32)| spec_filed_before(b, e, x as int, y as int, z as int) && #[trigger] spec_listed(self.cells@, e, k);
                            assert(spec_filed_before(b, e, x as int, y + 1, i32::MIN as int));
                        }
                    }
                }
                y = y + 1;
            }
            proof {
                assert(spec_gathered(self.cells@, b, x as int, y as int, i32::MIN as int) =~= spec_gathered(self.cells@, b, x + 1, i32::MIN as int, i32::MIN as int)) by {
                    assert forall|k: usize| spec_gathered(self.cells@, b, x + 1, i32::MIN as int, i32::MIN as int).contains(k) implies spec_gathered(self.cells@, b, x as int, y as int, i32::MIN as int).contains(k) by {
                        let e = choose|e: (i32, i32, i32)| spec_filed_before(b, e, x + 1, i32::MIN as int, i32::MIN as int) && #[trigger] spec_listed(self.cells@, e, k);
                        assert(spec_filed_before(b, e, x as int, y as int, i32::MIN as int));
                    }
                    assert forall|k: usize| spec_gathered(self.cells@, b, x as int, y as int, i32::MIN as int).contains(k) implies spec_gathered(self.cells@, b, x + 1, i32::MIN as int, i32::MIN as int).contains(k) by {
                        let e = choose|e: (i32, i32, i32)| spec_filed_before(b, e, x as int, y as int, i32::MIN as int) && #[trigger] spec_listed(self.cells@, e, k);
                        assert(spec_filed_before(b, e, x + 1, i32::MIN as int, i32::MIN as int));
                    }
                }
            }
            x = x + 1;
        }
        proof {
            let all = Set::new(|k: usize| exists|c: (i32, i32, i32)| spec_in_box(b, c) && #[trigger] spec_listed(self.cells@, c, k));
            assert(spec_gathered(self.cells@, b, x as int, i32::MIN as int, i32::MIN as int) =~= all) by {
                assert forall|k: usize| all.contains(k) implies spec_gathered(self.cells@, b, x as int, i32::MIN as int, i32::MIN as int).contains(k) by {
                    let e = choose|e: (i32, i32, i32)| spec_in_box(b, e) && #[trigger] spec_listed(self.cells@, e, k);
                    assert(spec_filed_before(b, e, x as int, i32::MIN as int, i32::MIN as int));
                }
            }
        }
        set
    }

    /// Every brush index.
    fn all_brushes(&self) -> (r: BTreeSet<usize>)
        ensures
            r@ == Set::new(|k: usize| k < self.brush_count),
    {
        let mut set: BTreeSet<usize> = BTreeSet::new();
        let mut k: usize = 0;
        while k < self.brush_count
            invariant
                k <= self.brush_count,
                set@ == Set::new(|j: usize| j < k),
            decreases self.brush_count - k,
        {
            set.insert(k);
            assert(set@ =~= Set::new(|j: usize| j < k + 1));
            k = k + 1;
        }
        set
    }
}

/// Every brush whose cell box meets a query's cell box is a candidate:
/// a query over an indexing grid misses no brush it could hit.
pub proof fn lemma_query_finds_meeting_brushes(
    grid: PropGrid,
    boxes: Seq<Option<CellBox>>,
    q: Option<CellBox>,
    k: int,
    c: (i32, i32, i32),
)
    requires
        grid.indexes(boxes),
        0 <= k < boxes.len(),
        boxes[k] is Some ==> spec_in_box(boxes[k]->0, c),
        q is Some ==> spec_in_box(q->0, c),
    ensures
        grid.spec_query(q).contains(k as usize),
{
    if !spec_gridded(boxes[k]) {
        assert(grid.overflow@.contains(k as usize));
    } else {
        assert(spec_listed(grid.cells@, c, k as usize));
    }
}

/// A query only returns brushes the grid indexes.
pub proof fn lemma_query_names_brushes(grid: PropGrid, q: Option<CellBox>, k: usize)
    requires
        grid.wf(),
        grid.spec_query(q).contains(k),
    ensures
        k < grid.brush_count,
{
    if let Some(b) = q {
        if grid.brush_count > 0 && spec_box_ok(b) && spec_box_cells(b) <= PROP_GRID_MAX_QUERY_CELLS && !grid.overflow@.contains(k) {
            let c = choose|c: (i32, i32, i32)| spec_in_box(b, c) && #[trigger] spec_listed(grid.cells@, c, k);
            assert(spec_listed(grid.cells@, c, k));
        }
    }
}

} // verus!
