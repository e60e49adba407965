//! The search for a free cell next to the land of a settlement.

use crate::grid::{lemma_surroundings_complete, lemma_surroundings_sound, Cell, Index};
use crate::territory::{lemma_land, land_of, cell_of, grid_ok, grid_set};
use std::collections::VecDeque;
use vstd::prelude::*;
use vstd::set_lib::{lemma_int_range, lemma_len_subset, set_int_range};

verus! {

/// A walk from the anchor over the grid: each step leads to a neighbour, and
/// every cell between the anchor and the end is claimed by the settlement `id`.
pub open spec fn is_walk(
    matrix: Seq<Seq<Cell>>,
    size: int,
    anchor: Index,
    id: u32,
    path: Seq<Index>,
) -> bool {
    &&& path.len() >= 2
    &&& path[0] == anchor
    &&& forall|k: int| 0 <= k < path.len() ==> (#[trigger] path[k]).inside(size)
    &&& forall|k: int| 0 <= k < path.len() - 1 ==> (#[trigger] path[k]).adjacent(path[k + 1])
    &&& forall|k: int|
        1 <= k < path.len() - 1 ==> cell_of(matrix, #[trigger] path[k]) == Cell::Claimed(id)
}

/// Some walk from the anchor ends at `p`.
pub open spec fn reachable(
    matrix: Seq<Seq<Cell>>,
    size: int,
    anchor: Index,
    id: u32,
    p: Index,
) -> bool {
    exists|path: Seq<Index>| #[trigger] is_walk(matrix, size, anchor, id, path) && path.last() == p
}

/// No walk from the anchor ends at an unclaimed cell other than the anchor:
/// the settlement `id` has no free cell next to its land.
pub open spec fn no_free_cell(matrix: Seq<Seq<Cell>>, size: int, anchor: Index, id: u32) -> bool {
    forall|q: Index|
        q != anchor && #[trigger] reachable(matrix, size, anchor, id, q) ==> cell_of(matrix, q)
            != Cell::Unclaimed
}

/// A settlement that has no free cell next to its land has none after
/// another settlement has claimed a cell.
pub proof fn lemma_claim_elsewhere(
    before: Seq<Seq<Cell>>,
    after: Seq<Seq<Cell>>,
    size: int,
    anchor: Index,
    id: u32,
    p: Index,
    other: u32,
)
    requires
        grid_set(before, after, size, p, Cell::Claimed(other)),
        other != id,
        no_free_cell(before, size, anchor, id),
    ensures
        no_free_cell(after, size, anchor, id),
{
    assert forall|q: Index|
        q != anchor && #[trigger] reachable(after, size, anchor, id, q) implies cell_of(after, q)
        != Cell::Unclaimed by {
        if cell_of(after, q) == Cell::Unclaimed {
            let path = choose|path: Seq<Index>| #[trigger]
                is_walk(after, size, anchor, id, path) && path.last() == q;
            assert(path[path.len() - 1].inside(size));
            assert forall|k: int| 1 <= k < path.len() - 1 implies cell_of(
                before,
                #[trigger] path[k],
            ) == Cell::Claimed(id) by {
                assert(path[k].inside(size));
                assert(cell_of(after, path[k]) == Cell::Claimed(id));
            }
            assert(is_walk(before, size, anchor, id, path));
            assert(reachable(before, size, anchor, id, q));
        }
    }
}

/// The number that stands for a cell when the grid is read row by row.
pub open spec fn code(p: Index, size: int) -> int {
    p.0 * size + p.1
}

/// The codes of the cells of the grid lie below the square of its side, and
/// no two cells share one.
proof fn lemma_code(p: Index, q: Index, size: int)
    requires
        p.inside(size),
        q.inside(size),
    ensures
        0 <= code(p, size) < size * size,
        code(p, size) == code(q, size) ==> p == q,
{
    let (a, b, c, d) = (p.0 as int, p.1 as int, q.0 as int, q.1 as int);
    assert(0 <= a * size + b < size * size) by (nonlinear_arith)
        requires
            0 <= a < size,
            0 <= b < size,
    ;
    assert(a * size + b == c * size + d ==> a == c) by (nonlinear_arith)
        requires
            0 <= a < size,
            0 <= b < size,
            0 <= c < size,
            0 <= d < size,
    ;
}

/// Cells of the grid of which none occurs twice are at most as many as the grid has.
pub proof fn lemma_cells_bounded(s: Seq<Index>, size: int)
    requires
        s.no_duplicates(),
        forall|k: int| 0 <= k < s.len() ==> (#[trigger] s[k]).inside(size),
        0 <= size,
    ensures
        s.len() <= size * size,
{
    let t = s.map_values(|p: Index| code(p, size));
    assert forall|i: int, j: int| 0 <= i < t.len() && 0 <= j < t.len() && i != j implies t[i]
        != t[j] by {
        lemma_code(s[i], s[j], size);
    }
    assert(t.no_duplicates());
    t.unique_seq_to_set();
    assert(size * size >= 0) by (nonlinear_arith);
    lemma_int_range(0, size * size);
    assert forall|x: int| t.to_set().contains(x) implies set_int_range(0, size * size).contains(
        x,
    ) by {
        let k = choose|k: int| 0 <= k < t.len() && t[k] == x;
        lemma_code(s[k], s[k], size);
    }
    lemma_len_subset(t.to_set(), set_int_range(0, size * size));
}

/// A walk that ends on a cell of the settlement goes on to any neighbour.
proof fn lemma_walk_on(
    matrix: Seq<Seq<Cell>>,
    size: int,
    anchor: Index,
    id: u32,
    path: Seq<Index>,
    next: Index,
)
    requires
        is_walk(matrix, size, anchor, id, path),
        cell_of(matrix, path.last()) == Cell::Claimed(id),
        next.inside(size),
        path.last().adjacent(next),
    ensures
        is_walk(matrix, size, anchor, id, path.push(next)),
        reachable(matrix, size, anchor, id, next),
{
    let longer = path.push(next);
    assert forall|k: int| 0 <= k < longer.len() - 1 implies (#[trigger] longer[k]).adjacent(
        longer[k + 1],
    ) by {
        if k < path.len() - 1 {
            assert(path[k].adjacent(path[k + 1]));
        }
    }
    assert forall|k: int| 1 <= k < longer.len() - 1 implies cell_of(matrix, #[trigger] longer[k])
        == Cell::Claimed(id) by {
        if k < path.len() - 1 {
            assert(cell_of(matrix, path[k]) == Cell::Claimed(id));
        }
    }
    assert(is_walk(matrix, size, anchor, id, longer));
    assert(longer.last() == next);
}

/// The first step of a walk leads from the anchor to a neighbour.
proof fn lemma_walk_start(matrix: Seq<Seq<Cell>>, size: int, anchor: Index, id: u32, next: Index)
    requires
        anchor.inside(size),
        next.inside(size),
        anchor.adjacent(next),
    ensures
        reachable(matrix, size, anchor, id, next),
        walk_of(matrix, size, anchor, id, next, 1),
{
    let path = seq![anchor, next];
    assert(is_walk(matrix, size, anchor, id, path));
    assert(path.last() == next);
}

/// The search can go on from this state: no cell has been searched twice,
/// and all cells that have been searched or wait lie on the grid.
pub open spec fn searchable(size: int, searched: Seq<Index>, waiting: Seq<Index>) -> bool {
    &&& 0 <= size
    &&& searched.no_duplicates()
    &&& forall|k: int| 0 <= k < searched.len() ==> (#[trigger] searched[k]).inside(size)
    &&& forall|k: int| 0 <= k < waiting.len() ==> (#[trigger] waiting[k]).inside(size)
}

/// What the search finds from a state in which `searched` has been searched
/// and `waiting` waits, in this order. The first cell that waits is looked
/// at: if it has been searched, it is passed over; if it is unclaimed, it is
/// found; else it counts as searched, and if the settlement `id` has claimed
/// it, its neighbours wait behind the others, in the order of
/// `Index::surroundings`. Where nothing waits, nothing is found.
pub open spec fn search_from(
    matrix: Seq<Seq<Cell>>,
    size: int,
    id: u32,
    searched: Seq<Index>,
    waiting: Seq<Index>,
) -> Option<Index>
    decreases size * size - searched.len(), waiting.len(),
    when searchable(size, searched, waiting)
{
    if waiting.len() == 0 {
        None
    } else {
        let current = waiting[0];
        let rest = waiting.skip(1);
        if searched.contains(current) {
            search_from(matrix, size, id, searched, rest)
        } else if cell_of(matrix, current) == Cell::Unclaimed {
            Some(current)
        } else {
            proof {
                lemma_searched_more(size, searched, current);
            }
            if cell_of(matrix, current) == Cell::Claimed(id) {
                search_from(
                    matrix,
                    size,
                    id,
                    searched.push(current),
                    rest + current.surroundings_spec(size),
                )
            } else {
                search_from(matrix, size, id, searched.push(current), rest)
            }
        }
    }
}

/// One more cell can be searched where not all have been.
pub proof fn lemma_searched_more(size: int, searched: Seq<Index>, current: Index)
    requires
        0 <= size,
        searched.no_duplicates(),
        forall|k: int| 0 <= k < searched.len() ==> (#[trigger] searched[k]).inside(size),
        current.inside(size),
        !searched.contains(current),
    ensures
        searched.push(current).no_duplicates(),
        forall|k: int|
            0 <= k < searched.push(current).len() ==> (#[trigger] searched.push(current)[k]).inside(
                size,
            ),
        searched.len() < size * size,
{
    let more = searched.push(current);
    assert forall|i: int, j: int| 0 <= i < more.len() && 0 <= j < more.len() && i != j implies more[i]
        != more[j] by {
        if i < searched.len() && j < searched.len() {
            assert(searched[i] != searched[j]);
        } else if i < searched.len() {
            assert(searched[i] != current);
        } else {
            assert(searched[j] != current);
        }
    }
    assert forall|k: int| 0 <= k < more.len() implies (#[trigger] more[k]).inside(size) by {
        if k < searched.len() {
            assert(searched[k].inside(size));
        }
    }
    lemma_cells_bounded(more, size);
}

/// A walk of `hops` steps from the anchor ends at `p`.
pub open spec fn walk_of(
    matrix: Seq<Seq<Cell>>,
    size: int,
    anchor: Index,
    id: u32,
    p: Index,
    hops: int,
) -> bool {
    exists|path: Seq<Index>| #[trigger]
        is_walk(matrix, size, anchor, id, path) && path.last() == p && path.len() == hops + 1
}

/// No walk of less than `hops` steps from the anchor passes `p`.
pub open spec fn at_least(
    matrix: Seq<Seq<Cell>>,
    size: int,
    anchor: Index,
    id: u32,
    p: Index,
    hops: int,
) -> bool {
    forall|path: Seq<Index>, j: int| #[trigger]
        is_walk(matrix, size, anchor, id, path) && 0 <= j < path.len() && #[trigger] path[j] == p
            ==> hops <= j
}

/// No walk of less than `hops` steps from the anchor ends at an unclaimed
/// cell other than the anchor.
pub open spec fn none_nearer(
    matrix: Seq<Seq<Cell>>,
    size: int,
    anchor: Index,
    id: u32,
    hops: int,
) -> bool {
    forall|path: Seq<Index>| #[trigger]
        is_walk(matrix, size, anchor, id, path) && path.last() != anchor && cell_of(
            matrix,
            path.last(),
        ) == Cell::Unclaimed ==> hops + 1 <= path.len()
}

/// `y` waits in the queue at a level of at most `bound`.
pub open spec fn queued(waiting: Seq<Index>, levels: Seq<int>, y: Index, bound: int) -> bool {
    exists|k: int| 0 <= k < waiting.len() && #[trigger] waiting[k] == y && levels[k] <= bound
}

/// The state of the search: what has been searched, with the number of
/// steps at which each cell was reached, and what waits, with the number of
/// steps at which each cell will be reached.
pub struct Frontier {
    pub searched: Seq<Index>,
    pub depths: Seq<int>,
    pub waiting: Seq<Index>,
    pub levels: Seq<int>,
}

impl Frontier {
    /// What the search keeps true of its state.
    #[verifier::opaque]
    pub open spec fn ok(self, matrix: Seq<Seq<Cell>>, size: int, anchor: Index, id: u32) -> bool {
        let Frontier { searched, depths, waiting, levels } = self;
        &&& searched.len() > 0
        &&& searched[0] == anchor
        &&& searched.no_duplicates()
        &&& forall|k: int| 0 <= k < searched.len() ==> (#[trigger] searched[k]).inside(size)
        &&& forall|k: int|
            1 <= k < searched.len() ==> cell_of(matrix, #[trigger] searched[k]) != Cell::Unclaimed
        &&& depths.len() == searched.len()
        &&& forall|k: int|
            0 <= k < searched.len() ==> at_least(
                matrix,
                size,
                anchor,
                id,
                #[trigger] searched[k],
                depths[k],
            )
        &&& levels.len() == waiting.len()
        &&& forall|k: int|
            0 <= k < waiting.len() ==> (#[trigger] waiting[k]).inside(size) && walk_of(
                matrix,
                size,
                anchor,
                id,
                waiting[k],
                levels[k],
            )
        &&& forall|a: int, b: int| 0 <= a <= b < levels.len() ==> levels[a] <= levels[b]
        &&& forall|k: int| 0 <= k < levels.len() ==> #[trigger] levels[k] <= levels[0] + 1
        &&& forall|j: int, y: Index|
            0 <= j < searched.len() && (j == 0 || cell_of(matrix, searched[j]) == Cell::Claimed(id))
                && y.inside(size) && #[trigger] searched[j].adjacent(y) ==> searched.contains(y)
                || queued(waiting, levels, y, depths[j] + 1)
    }
}

/// On a walk that leaves what has been searched, the cell at which it first
/// does so waits in the queue, at a level of at most its place on the walk.
proof fn lemma_first_outside(
    matrix: Seq<Seq<Cell>>,
    size: int,
    anchor: Index,
    id: u32,
    state: Frontier,
    path: Seq<Index>,
    j: int,
) -> (f: int)
    requires
        state.ok(matrix, size, anchor, id),
        is_walk(matrix, size, anchor, id, path),
        0 <= j < path.len(),
        !state.searched.contains(path[j]),
    ensures
        1 <= f <= j,
        queued(state.waiting, state.levels, path[f], f),
    decreases j,
{
    reveal(Frontier::ok);
    assert(state.searched[0] == path[0]);
    assert(j >= 1);
    if state.searched.contains(path[j - 1]) {
        let i = choose|i: int| 0 <= i < state.searched.len() && state.searched[i] == path[j - 1];
        assert(at_least(matrix, size, anchor, id, state.searched[i], state.depths[i]));
        assert(state.depths[i] <= j - 1);
        assert(path[j - 1].adjacent(path[j]));
        assert(path[j].inside(size));
        if j - 1 >= 1 {
            assert(cell_of(matrix, path[j - 1]) == Cell::Claimed(id));
        } else {
            assert(i == 0) by {
                if i != 0 {
                    assert(state.searched[0] == state.searched[i]);
                }
            }
        }
        assert(state.searched[i].adjacent(path[j]));
        assert(queued(state.waiting, state.levels, path[j], state.depths[i] + 1));
        let k = choose|k: int|
            0 <= k < state.waiting.len() && #[trigger] state.waiting[k] == path[j]
                && state.levels[k] <= state.depths[i] + 1;
        assert(state.waiting[k] == path[j] && state.levels[k] <= j);
        j
    } else {
        lemma_first_outside(matrix, size, anchor, id, state, path, j - 1)
    }
}

/// No walk reaches a cell that has not been searched in less steps than
/// the level of the first cell that waits.
proof fn lemma_front_first(
    matrix: Seq<Seq<Cell>>,
    size: int,
    anchor: Index,
    id: u32,
    state: Frontier,
    p: Index,
)
    requires
        state.ok(matrix, size, anchor, id),
        state.waiting.len() > 0,
        !state.searched.contains(p),
    ensures
        at_least(matrix, size, anchor, id, p, state.levels[0]),
{
    reveal(Frontier::ok);
    assert forall|path: Seq<Index>, j: int| #[trigger]
        is_walk(matrix, size, anchor, id, path) && 0 <= j < path.len() && #[trigger] path[j]
            == p implies state.levels[0] <= j by {
        let f = lemma_first_outside(matrix, size, anchor, id, state, path, j);
        let k = choose|k: int|
            0 <= k < state.waiting.len() && #[trigger] state.waiting[k] == path[f]
                && state.levels[k] <= f;
        assert(state.levels[0] <= state.levels[k]);
    }
}

/// Where nothing waits, the search has seen every cell that a walk passes.
proof fn lemma_walk_searched(
    matrix: Seq<Seq<Cell>>,
    size: int,
    anchor: Index,
    id: u32,
    state: Frontier,
    path: Seq<Index>,
    k: int,
)
    requires
        state.ok(matrix, size, anchor, id),
        state.waiting.len() == 0,
        is_walk(matrix, size, anchor, id, path),
        0 <= k < path.len(),
    ensures
        state.searched.contains(path[k]),
{
    reveal(Frontier::ok);
    if !state.searched.contains(path[k]) {
        let f = lemma_first_outside(matrix, size, anchor, id, state, path, k);
        assert(!queued(state.waiting, state.levels, path[f], f));
    }
}

/// Whether `p` is among `cells`.
fn seen(cells: &Vec<Index>, p: Index) -> (found: bool)
    ensures
        found == cells@.contains(p),
{
    let mut k: usize = 0;
    while k < cells.len()
        invariant
            k <= cells.len(),
            forall|j: int| 0 <= j < k ==> cells[j] != p,
        decreases cells.len() - k,
    {
        if cells[k] == p {
            return true;
        }
        k = k + 1;
    }
    false
}

/// Puts the cells at the back of the queue, in their order.
fn enqueue(queue: &mut VecDeque<Index>, cells: &Vec<Index>)
    ensures
        final(queue)@ == old(queue)@ + cells@,
{
    let mut k: usize = 0;
    assert(queue@ =~= old(queue)@ + cells@.take(0));
    while k < cells.len()
        invariant
            k <= cells.len(),
            queue@ == old(queue)@ + cells@.take(k as int),
        decreases cells.len() - k,
    {
        queue.push_back(cells[k]);
        assert(queue@ =~= old(queue)@ + cells@.take(k + 1));
        k = k + 1;
    }
    assert(cells@.take(k as int) =~= cells@);
}

impl Frontier {
    /// The state in which the first cell that waits has been taken off.
    pub open spec fn rest(self) -> Frontier {
        Frontier { waiting: self.waiting.skip(1), levels: self.levels.skip(1), ..self }
    }

    /// The state in which the first cell that waits counts as searched.
    pub open spec fn passed(self) -> Frontier {
        Frontier {
            searched: self.searched.push(self.waiting[0]),
            depths: self.depths.push(self.levels[0]),
            ..self.rest()
        }
    }

    /// The state in which the first cell that waits counts as searched and
    /// its neighbours wait behind the others.
    pub open spec fn expanded(self, size: int) -> Frontier {
        let around = self.waiting[0].surroundings_spec(size);
        Frontier {
            waiting: self.waiting.skip(1) + around,
            levels: self.levels.skip(1) + Seq::new(around.len(), |k: int| self.levels[0] + 1),
            ..self.passed()
        }
    }

    /// What the search finds from this state.
    pub open spec fn result(self, matrix: Seq<Seq<Cell>>, size: int, id: u32) -> Option<Index> {
        search_from(matrix, size, id, self.searched, self.waiting)
    }
}

/// The state at the start of the search is in order: the anchor has been
/// searched and its neighbours wait.
proof fn lemma_start(matrix: Seq<Seq<Cell>>, size: int, anchor: Index, id: u32)
    requires
        anchor.inside(size),
        size <= usize::MAX,
    ensures
        (Frontier {
            searched: seq![anchor],
            depths: seq![0int],
            waiting: anchor.surroundings_spec(size),
            levels: Seq::new(anchor.surroundings_spec(size).len(), |k: int| 1int),
        }).ok(matrix, size, anchor, id),
{
    reveal(Frontier::ok);
    let first = anchor.surroundings_spec(size);
    let levels = Seq::new(first.len(), |k: int| 1int);
    let searched = seq![anchor];
    let depths = seq![0int];
    assert forall|k: int| 0 <= k < first.len() implies (#[trigger] first[k]).inside(size)
        && walk_of(matrix, size, anchor, id, first[k], levels[k]) by {
        lemma_surroundings_sound(anchor, size, k);
        lemma_walk_start(matrix, size, anchor, id, first[k]);
    }
    assert forall|j: int, y: Index|
        0 <= j < searched.len() && (j == 0 || cell_of(matrix, searched[j]) == Cell::Claimed(id))
            && y.inside(size) && #[trigger] searched[j].adjacent(y) implies searched.contains(y)
        || queued(first, levels, y, depths[j] + 1) by {
        lemma_surroundings_complete(anchor, y, size);
        let k = choose|k: int| 0 <= k < first.len() && first[k] == y;
        assert(first[k] == y && levels[k] <= 1);
    }
    assert(at_least(matrix, size, anchor, id, anchor, 0));
}

/// The first cell that waits lies on the grid.
proof fn lemma_front(matrix: Seq<Seq<Cell>>, size: int, anchor: Index, id: u32, state: Frontier)
    requires
        state.ok(matrix, size, anchor, id),
        state.waiting.len() > 0,
    ensures
        state.waiting[0].inside(size),
{
    reveal(Frontier::ok);
}

/// To take the first cell off the queue keeps the rest in order: what was
/// queued and is not the first cell is still queued.
proof fn lemma_rest(
    matrix: Seq<Seq<Cell>>,
    size: int,
    anchor: Index,
    id: u32,
    state: Frontier,
)
    requires
        state.ok(matrix, size, anchor, id),
        state.waiting.len() > 0,
    ensures
        state.rest().levels.len() == state.rest().waiting.len(),
        forall|k: int|
            0 <= k < state.rest().waiting.len() ==> (#[trigger] state.rest().waiting[k]).inside(
                size,
            ) && walk_of(matrix, size, anchor, id, state.rest().waiting[k], state.rest().levels[k]),
        forall|a: int, b: int|
            0 <= a <= b < state.rest().levels.len() ==> state.rest().levels[a]
                <= state.rest().levels[b],
        forall|k: int|
            0 <= k < state.rest().levels.len() ==> state.levels[0] <= #[trigger] state.rest().levels[k]
                <= state.levels[0] + 1,
        forall|y: Index, bound: int|
            #[trigger] queued(state.waiting, state.levels, y, bound) && y != state.waiting[0]
                ==> queued(state.rest().waiting, state.rest().levels, y, bound),
{
    reveal(Frontier::ok);
    let rest = state.rest();
    assert forall|k: int| 0 <= k < rest.waiting.len() implies (#[trigger] rest.waiting[k]).inside(
        size,
    ) && walk_of(matrix, size, anchor, id, rest.waiting[k], rest.levels[k]) by {
        assert(rest.waiting[k] == state.waiting[k + 1]);
        assert(rest.levels[k] == state.levels[k + 1]);
    }
    assert forall|a: int, b: int| 0 <= a <= b < rest.levels.len() implies rest.levels[a]
        <= rest.levels[b] by {
        assert(state.levels[a + 1] <= state.levels[b + 1]);
    }
    assert forall|k: int| 0 <= k < rest.levels.len() implies state.levels[0]
        <= #[trigger] rest.levels[k] <= state.levels[0] + 1 by {
        assert(state.levels[k + 1] <= state.levels[0] + 1);
        assert(state.levels[0] <= state.levels[k + 1]);
    }
    assert forall|y: Index, bound: int|
        #[trigger] queued(state.waiting, state.levels, y, bound) && y
            != state.waiting[0] implies queued(rest.waiting, rest.levels, y, bound) by {
        let k = choose|k: int|
            0 <= k < state.waiting.len() && #[trigger] state.waiting[k] == y && state.levels[k]
                <= bound;
        assert(rest.waiting[k - 1] == y);
        assert(rest.levels[k - 1] == state.levels[k]);
    }
}

/// A cell that has been searched is passed over.
proof fn lemma_pass(matrix: Seq<Seq<Cell>>, size: int, anchor: Index, id: u32, state: Frontier)
    requires
        state.ok(matrix, size, anchor, id),
        state.waiting.len() > 0,
        state.searched.contains(state.waiting[0]),
        0 <= size,
    ensures
        state.rest().ok(matrix, size, anchor, id),
        state.rest().result(matrix, size, id) == state.result(matrix, size, id),
{
    reveal(Frontier::ok);
    let rest = state.rest();
    lemma_rest(matrix, size, anchor, id, state);
    assert forall|k: int| 0 <= k < rest.levels.len() implies #[trigger] rest.levels[k]
        <= rest.levels[0] + 1 by {
        assert(state.levels[0] <= rest.levels[0]);
    }
    assert forall|j: int, y: Index|
        0 <= j < rest.searched.len() && (j == 0 || cell_of(matrix, rest.searched[j])
            == Cell::Claimed(id)) && y.inside(size) && #[trigger] rest.searched[j].adjacent(
            y,
        ) implies rest.searched.contains(y) || queued(
        rest.waiting,
        rest.levels,
        y,
        rest.depths[j] + 1,
    ) by {
        if !state.searched.contains(y) {
            assert(queued(state.waiting, state.levels, y, state.depths[j] + 1));
        }
    }
    assert(searchable(size, state.searched, state.waiting));
}

/// A cell that is found is one that the least number of steps reaches, and
/// it is not the anchor.
proof fn lemma_found(matrix: Seq<Seq<Cell>>, size: int, anchor: Index, id: u32, state: Frontier)
    requires
        state.ok(matrix, size, anchor, id),
        state.waiting.len() > 0,
        !state.searched.contains(state.waiting[0]),
        cell_of(matrix, state.waiting[0]) == Cell::Unclaimed,
        0 <= size,
    ensures
        state.waiting[0] != anchor,
        walk_of(matrix, size, anchor, id, state.waiting[0], state.levels[0]),
        none_nearer(matrix, size, anchor, id, state.levels[0]),
        state.result(matrix, size, id) == Some(state.waiting[0]),
{
    reveal(Frontier::ok);
    let level = state.levels[0];
    assert(state.searched[0] == anchor);
    assert forall|path: Seq<Index>| #[trigger]
        is_walk(matrix, size, anchor, id, path) && path.last() != anchor && cell_of(
            matrix,
            path.last(),
        ) == Cell::Unclaimed implies level + 1 <= path.len() by {
        let q = path.last();
        if state.searched.contains(q) {
            let k = choose|k: int| 0 <= k < state.searched.len() && state.searched[k] == q;
            assert(k >= 1);
        }
        lemma_front_first(matrix, size, anchor, id, state, q);
        assert(path[path.len() - 1] == q);
    }
    assert(searchable(size, state.searched, state.waiting));
}

/// A cell that is neither unclaimed nor has been searched counts as
/// searched from now on, at the level at which it waited.
proof fn lemma_passed(matrix: Seq<Seq<Cell>>, size: int, anchor: Index, id: u32, state: Frontier)
    requires
        state.ok(matrix, size, anchor, id),
        state.waiting.len() > 0,
        !state.searched.contains(state.waiting[0]),
        cell_of(matrix, state.waiting[0]) != Cell::Unclaimed,
        0 <= size,
    ensures
        state.searched.len() < size * size,
        state.passed().searched.len() > 0,
        state.passed().searched[0] == anchor,
        state.passed().searched.no_duplicates(),
        forall|k: int|
            0 <= k < state.passed().searched.len() ==> (#[trigger] state.passed().searched[k]).inside(
                size,
            ),
        forall|k: int|
            1 <= k < state.passed().searched.len() ==> cell_of(
                matrix,
                #[trigger] state.passed().searched[k],
            ) != Cell::Unclaimed,
        state.passed().depths.len() == state.passed().searched.len(),
        forall|k: int|
            0 <= k < state.passed().searched.len() ==> at_least(
                matrix,
                size,
                anchor,
                id,
                #[trigger] state.passed().searched[k],
                state.passed().depths[k],
            ),
        forall|j: int, y: Index|
            0 <= j < state.searched.len() && (j == 0 || cell_of(matrix, state.searched[j])
                == Cell::Claimed(id)) && y.inside(size) && #[trigger] state.searched[j].adjacent(y)
                ==> state.passed().searched.contains(y) || queued(
                state.rest().waiting,
                state.rest().levels,
                y,
                state.depths[j] + 1,
            ),
{
    reveal(Frontier::ok);
    let current = state.waiting[0];
    let next = state.passed();
    lemma_searched_more(size, state.searched, current);
    lemma_front_first(matrix, size, anchor, id, state, current);
    lemma_rest(matrix, size, anchor, id, state);
    assert(next.searched[0] == state.searched[0]);
    assert forall|k: int| 1 <= k < next.searched.len() implies cell_of(
        matrix,
        #[trigger] next.searched[k],
    ) != Cell::Unclaimed by {
        if k < state.searched.len() {
            assert(next.searched[k] == state.searched[k]);
        }
    }
    assert forall|k: int| 0 <= k < next.searched.len() implies at_least(
        matrix,
        size,
        anchor,
        id,
        #[trigger] next.searched[k],
        next.depths[k],
    ) by {
        if k < state.searched.len() {
            assert(next.searched[k] == state.searched[k]);
            assert(at_least(matrix, size, anchor, id, state.searched[k], state.depths[k]));
        }
    }
    assert(next.searched[state.searched.len() as int] == current);
    assert forall|j: int, y: Index|
        0 <= j < state.searched.len() && (j == 0 || cell_of(matrix, state.searched[j])
            == Cell::Claimed(id)) && y.inside(size) && #[trigger] state.searched[j].adjacent(
            y,
        ) implies next.searched.contains(y) || queued(
        state.rest().waiting,
        state.rest().levels,
        y,
        state.depths[j] + 1,
    ) by {
        if state.searched.contains(y) {
            let k = choose|k: int| 0 <= k < state.searched.len() && state.searched[k] == y;
            assert(next.searched[k] == y);
        } else if y != current {
            assert(queued(state.waiting, state.levels, y, state.depths[j] + 1));
        }
    }
}

/// A cell of another settlement, or an anchor, ends the search in its direction.
proof fn lemma_block(matrix: Seq<Seq<Cell>>, size: int, anchor: Index, id: u32, state: Frontier)
    requires
        state.ok(matrix, size, anchor, id),
        state.waiting.len() > 0,
        !state.searched.contains(state.waiting[0]),
        cell_of(matrix, state.waiting[0]) != Cell::Unclaimed,
        cell_of(matrix, state.waiting[0]) != Cell::Claimed(id),
        0 <= size,
    ensures
        state.searched.len() < size * size,
        state.passed().ok(matrix, size, anchor, id),
        state.passed().result(matrix, size, id) == state.result(matrix, size, id),
{
    reveal(Frontier::ok);
    let next = state.passed();
    lemma_passed(matrix, size, anchor, id, state);
    lemma_rest(matrix, size, anchor, id, state);
    assert forall|k: int| 0 <= k < next.levels.len() implies #[trigger] next.levels[k]
        <= next.levels[0] + 1 by {
        assert(state.levels[0] <= state.rest().levels[0]);
        assert(state.rest().levels[k] <= state.levels[0] + 1);
    }
    assert forall|j: int, y: Index|
        0 <= j < next.searched.len() && (j == 0 || cell_of(matrix, next.searched[j])
            == Cell::Claimed(id)) && y.inside(size) && #[trigger] next.searched[j].adjacent(
            y,
        ) implies next.searched.contains(y) || queued(
        next.waiting,
        next.levels,
        y,
        next.depths[j] + 1,
    ) by {
        assert(j < state.searched.len());
        assert(next.searched[j] == state.searched[j]);
        assert(state.searched[j].adjacent(y));
    }
    assert(searchable(size, state.searched, state.waiting));
}

/// From a cell of the settlement the search goes on to its neighbours, which
/// wait one level above it.
proof fn lemma_expand(matrix: Seq<Seq<Cell>>, size: int, anchor: Index, id: u32, state: Frontier)
    requires
        state.ok(matrix, size, anchor, id),
        state.waiting.len() > 0,
        !state.searched.contains(state.waiting[0]),
        cell_of(matrix, state.waiting[0]) == Cell::Claimed(id),
        0 <= size <= usize::MAX,
    ensures
        state.searched.len() < size * size,
        state.expanded(size).ok(matrix, size, anchor, id),
        state.expanded(size).result(matrix, size, id) == state.result(matrix, size, id),
{
    reveal(Frontier::ok);
    let current = state.waiting[0];
    let level = state.levels[0];
    let around = current.surroundings_spec(size);
    let rest = state.rest();
    let next = state.expanded(size);
    lemma_passed(matrix, size, anchor, id, state);
    lemma_rest(matrix, size, anchor, id, state);
    assert(next.searched == state.passed().searched);
    assert(next.depths == state.passed().depths);
    let path = choose|path: Seq<Index>| #[trigger]
        is_walk(matrix, size, anchor, id, path) && path.last() == current && path.len() == level
            + 1;
    assert forall|k: int| 0 <= k < next.waiting.len() implies (#[trigger] next.waiting[k]).inside(
        size,
    ) && walk_of(matrix, size, anchor, id, next.waiting[k], next.levels[k]) by {
        if k < rest.waiting.len() {
            assert(next.waiting[k] == rest.waiting[k]);
            assert(next.levels[k] == rest.levels[k]);
        } else {
            lemma_surroundings_sound(current, size, k - rest.waiting.len());
            lemma_walk_on(matrix, size, anchor, id, path, next.waiting[k]);
            assert(path.push(next.waiting[k]).len() == level + 2);
        }
    }
    assert forall|k: int| 0 <= k < next.levels.len() implies level <= #[trigger] next.levels[k]
        <= level + 1 by {
        if k < rest.levels.len() {
            assert(next.levels[k] == rest.levels[k]);
        }
    }
    assert forall|a: int, b: int| 0 <= a <= b < next.levels.len() implies next.levels[a]
        <= next.levels[b] by {
        assert(level <= next.levels[a] <= level + 1);
        assert(level <= next.levels[b] <= level + 1);
        if b < rest.levels.len() {
            assert(next.levels[a] == rest.levels[a]);
            assert(next.levels[b] == rest.levels[b]);
        }
    }
    assert forall|k: int| 0 <= k < next.levels.len() implies #[trigger] next.levels[k]
        <= next.levels[0] + 1 by {
        assert(level <= next.levels[0] <= level + 1);
        assert(level <= next.levels[k] <= level + 1);
    }
    assert forall|y: Index, bound: int| #[trigger]
        queued(rest.waiting, rest.levels, y, bound) implies queued(
        next.waiting,
        next.levels,
        y,
        bound,
    ) by {
        let k = choose|k: int|
            0 <= k < rest.waiting.len() && #[trigger] rest.waiting[k] == y && rest.levels[k]
                <= bound;
        assert(next.waiting[k] == y);
        assert(next.levels[k] == rest.levels[k]);
    }
    assert forall|j: int, y: Index|
        0 <= j < next.searched.len() && (j == 0 || cell_of(matrix, next.searched[j])
            == Cell::Claimed(id)) && y.inside(size) && #[trigger] next.searched[j].adjacent(
            y,
        ) implies next.searched.contains(y) || queued(
        next.waiting,
        next.levels,
        y,
        next.depths[j] + 1,
    ) by {
        if j < state.searched.len() {
            assert(next.searched[j] == state.searched[j]);
            assert(state.searched[j].adjacent(y));
            if !next.searched.contains(y) {
                assert(queued(rest.waiting, rest.levels, y, state.depths[j] + 1));
            }
        } else {
            assert(next.searched[j] == current);
            lemma_surroundings_complete(current, y, size);
            let k = choose|k: int| 0 <= k < around.len() && around[k] == y;
            assert(next.waiting[rest.waiting.len() + k] == y);
            assert(next.levels[rest.waiting.len() + k] == level + 1);
        }
    }
    assert(searchable(size, state.searched, state.waiting));
}

/// Where nothing waits, no walk ends at an unclaimed cell, and nothing is found.
proof fn lemma_done(matrix: Seq<Seq<Cell>>, size: int, anchor: Index, id: u32, state: Frontier)
    requires
        state.ok(matrix, size, anchor, id),
        state.waiting.len() == 0,
        0 <= size,
    ensures
        no_free_cell(matrix, size, anchor, id),
        state.result(matrix, size, id) is None,
{
    reveal(Frontier::ok);
    assert forall|q: Index|
        q != anchor && #[trigger] reachable(matrix, size, anchor, id, q) implies cell_of(matrix, q)
        != Cell::Unclaimed by {
        let path = choose|path: Seq<Index>| #[trigger]
            is_walk(matrix, size, anchor, id, path) && path.last() == q;
        lemma_walk_searched(matrix, size, anchor, id, state, path, path.len() - 1);
        let k = choose|k: int| 0 <= k < state.searched.len() && state.searched[k] == q;
        assert(k >= 1);
    }
    assert(searchable(size, state.searched, state.waiting));
}

/// Searches breadth first from the anchor `pos`, through the cells that the
/// settlement `id` has claimed, for an unclaimed cell. Neighbours are visited
/// in the order in which `Index::surroundings` gives them. The cell found is
/// one that the least number of steps reaches; none is found only where no
/// walk leads to one.
pub fn find_unclaimed(matrix: &Vec<Vec<Cell>>, size: u16, pos: Index, id: u32) -> (found: Option<
    Index,
>)
    requires
        grid_ok(land_of(matrix@), size as int),
        pos.inside(size as int),
    ensures
        found == search_from(
            land_of(matrix@),
            size as int,
            id,
            seq![pos],
            pos.surroundings_spec(size as int),
        ),
        found matches Some(p) ==> {
            &&& p.inside(size as int)
            &&& p != pos
            &&& cell_of(land_of(matrix@), p) == Cell::Unclaimed
            &&& exists|hops: int| #[trigger]
                walk_of(land_of(matrix@), size as int, pos, id, p, hops) && none_nearer(
                    land_of(matrix@),
                    size as int,
                    pos,
                    id,
                    hops,
                )
        },
        found is None ==> no_free_cell(land_of(matrix@), size as int, pos, id),
{
    let ghost side = size as int;
    let mut searched: Vec<Index> = Vec::new();
    searched.push(pos);
    let mut to_search: VecDeque<Index> = VecDeque::new();
    let first: Vec<Index> = pos.surroundings(size as isize);
    enqueue(&mut to_search, &first);
    let ghost mut state = Frontier {
        searched: seq![pos],
        depths: seq![0int],
        waiting: pos.surroundings_spec(side),
        levels: Seq::new(pos.surroundings_spec(side).len(), |k: int| 1int),
    };
    let ghost goal = state.result(land_of(matrix@), side, id);
    proof {
        lemma_start(land_of(matrix@), side, pos, id);
        assert(to_search@ =~= state.waiting);
        assert(searched@ =~= state.searched);
    }
    while to_search.len() > 0
        invariant
            side == size as int,
            grid_ok(land_of(matrix@), side),
            searched@ == state.searched,
            to_search@ == state.waiting,
            state.ok(land_of(matrix@), side, pos, id),
            state.result(land_of(matrix@), side, id) == goal,
            goal == search_from(land_of(matrix@), side, id, seq![pos], pos.surroundings_spec(side)),
        decreases side * side - searched@.len(), to_search@.len(),
    {
        proof {
            lemma_front(land_of(matrix@), side, pos, id, state);
            lemma_land(matrix@);
        }
        let current: Index = to_search.pop_front().unwrap();
        if seen(&searched, current) {
            proof {
                lemma_pass(land_of(matrix@), side, pos, id, state);
                state = state.rest();
                assert(to_search@ =~= state.waiting);
            }
        } else {
            let cell: Cell = matrix[current.0][current.1];
            if cell == Cell::Unclaimed {
                proof {
                    lemma_found(land_of(matrix@), side, pos, id, state);
                }
                return Some(current);
            }
            searched.push(current);
            if cell == Cell::Claimed(id) {
                let around: Vec<Index> = current.surroundings(size as isize);
                enqueue(&mut to_search, &around);
                proof {
                    lemma_expand(land_of(matrix@), side, pos, id, state);
                    state = state.expanded(side);
                    assert(to_search@ =~= state.waiting);
                    assert(searched@ =~= state.searched);
                }
            } else {
                proof {
                    lemma_block(land_of(matrix@), side, pos, id, state);
                    state = state.passed();
                    assert(to_search@ =~= state.waiting);
                    assert(searched@ =~= state.searched);
                }
            }
        }
    }
    proof {
        lemma_done(land_of(matrix@), side, pos, id, state);
    }
    None
}

} // verus!
