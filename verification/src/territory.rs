//! How the grid and the settlements fit together: every claimed cell is the
//! patch of exactly one household, and every patch is a cell that the
//! household's settlement has claimed.

use crate::grid::{Cell, Index};
use crate::settlement::Settlement;
use crate::sums::sum;
use vstd::prelude::*;

verus! {

/// The grid as rows of cells.
pub open spec fn land_of(matrix: Seq<Vec<Cell>>) -> Seq<Seq<Cell>> {
    matrix.map_values(|row: Vec<Cell>| row@)
}

/// The rows of the grid are the rows of the matrix.
pub proof fn lemma_land(matrix: Seq<Vec<Cell>>)
    ensures
        land_of(matrix).len() == matrix.len(),
        forall|r: int| 0 <= r < matrix.len() ==> land_of(matrix)[r] == (#[trigger] matrix[r])@,
{
}

/// The cell at a coordinate.
pub open spec fn cell_of(matrix: Seq<Seq<Cell>>, p: Index) -> Cell {
    matrix[p.0 as int][p.1 as int]
}

/// The grid is a square of side `size`.
pub open spec fn grid_ok(matrix: Seq<Seq<Cell>>, size: int) -> bool {
    &&& matrix.len() == size
    &&& forall|r: int| 0 <= r < size ==> (#[trigger] matrix[r]).len() == size
}

/// The patch of the household at place `i` of the settlement at place `n`.
pub open spec fn patch_of(ss: Seq<Settlement>, n: int, i: int) -> Option<Index> {
    ss[n].households[i].resource_patch
}

/// The household at place `i` of the settlement at place `n` belongs to the
/// settlement with id `sid` and has `p` as its patch.
pub open spec fn owns(ss: Seq<Settlement>, n: int, i: int, sid: u32, p: Index) -> bool {
    &&& 0 <= n < ss.len()
    &&& 0 <= i < ss[n].households.len()
    &&& ss[n].id == sid
    &&& patch_of(ss, n, i) == Some(p)
}

/// No two settlements share an id.
pub open spec fn distinct_settlements(ss: Seq<Settlement>) -> bool {
    forall|n: int, m: int| 0 <= n < m < ss.len() ==> (#[trigger] ss[n]).id != (#[trigger] ss[m]).id
}

/// Every settlement stands on the cell that is settled in its name.
pub open spec fn anchored(matrix: Seq<Seq<Cell>>, ss: Seq<Settlement>, size: int) -> bool {
    forall|n: int|
        0 <= n < ss.len() ==> (#[trigger] ss[n]).position.inside(size) && cell_of(
            matrix,
            ss[n].position,
        ) == Cell::Settled(ss[n].id)
}

/// Every patch is a cell of the grid that the household's settlement has claimed.
pub open spec fn patches_claimed(matrix: Seq<Seq<Cell>>, ss: Seq<Settlement>, size: int) -> bool {
    forall|n: int, i: int|
        0 <= n < ss.len() && 0 <= i < ss[n].households.len() && (#[trigger] patch_of(ss, n, i))
            is Some ==> patch_of(ss, n, i)->Some_0.inside(size) && cell_of(
            matrix,
            patch_of(ss, n, i)->Some_0,
        ) == Cell::Claimed(ss[n].id)
}

/// No two households of a settlement share a patch.
pub open spec fn patches_distinct(ss: Seq<Settlement>) -> bool {
    forall|n: int, i: int, j: int|
        0 <= n < ss.len() && 0 <= i < j < ss[n].households.len() && patch_of(ss, n, i) is Some
            ==> #[trigger] patch_of(ss, n, i) != #[trigger] patch_of(ss, n, j)
}

/// Every claimed cell is the patch of a household of the settlement that claimed it.
pub open spec fn claims_owned(matrix: Seq<Seq<Cell>>, ss: Seq<Settlement>, size: int) -> bool {
    forall|p: Index|
        p.inside(size) && (#[trigger] cell_of(matrix, p)) is Claimed ==> exists|n: int, i: int|
            #[trigger] owns(ss, n, i, cell_of(matrix, p)->Claimed_0, p)
}

/// The grid and the settlements agree about who holds which cell.
pub open spec fn consistent(matrix: Seq<Seq<Cell>>, ss: Seq<Settlement>, size: int) -> bool {
    &&& grid_ok(matrix, size)
    &&& distinct_settlements(ss)
    &&& anchored(matrix, ss, size)
    &&& patches_claimed(matrix, ss, size)
    &&& patches_distinct(ss)
    &&& claims_owned(matrix, ss, size)
}

/// The grid `after` is `before` with the cell at `p` set to `cell`.
pub open spec fn grid_set(
    before: Seq<Seq<Cell>>,
    after: Seq<Seq<Cell>>,
    size: int,
    p: Index,
    cell: Cell,
) -> bool {
    &&& grid_ok(after, size)
    &&& cell_of(after, p) == cell
    &&& forall|q: Index| q.inside(size) && q != p ==> cell_of(after, q) == cell_of(before, q)
}

/// `after` holds the settlements of `before` with the same ids and anchors;
/// their households keep their places and patches, and those that have come
/// since stand behind them and have no patch.
pub open spec fn extends_layout(before: Seq<Settlement>, after: Seq<Settlement>) -> bool {
    &&& before.len() == after.len()
    &&& forall|n: int|
        0 <= n < before.len() ==> {
            &&& (#[trigger] after[n]).id == before[n].id
            &&& after[n].position == before[n].position
            &&& before[n].households.len() <= after[n].households.len()
        }
    &&& forall|n: int, i: int|
        0 <= n < before.len() && 0 <= i < after[n].households.len() ==> #[trigger] patch_of(
            after,
            n,
            i,
        ) == (if i < before[n].households.len() {
            patch_of(before, n, i)
        } else {
            None
        })
}

/// A claimed cell has one owner only.
pub proof fn lemma_one_owner(
    matrix: Seq<Seq<Cell>>,
    ss: Seq<Settlement>,
    size: int,
    p: Index,
    sid: u32,
    n1: int,
    i1: int,
    n2: int,
    i2: int,
)
    requires
        consistent(matrix, ss, size),
        owns(ss, n1, i1, sid, p),
        owns(ss, n2, i2, sid, p),
    ensures
        n1 == n2,
        i1 == i2,
{
    if n1 < n2 {
        assert(ss[n1].id != ss[n2].id);
    } else if n2 < n1 {
        assert(ss[n2].id != ss[n1].id);
    }
    if i1 < i2 {
        assert(patch_of(ss, n1, i1) != patch_of(ss, n1, i2));
    } else if i2 < i1 {
        assert(patch_of(ss, n1, i2) != patch_of(ss, n1, i1));
    }
}

/// Households may gain and lose resources, and households without a patch
/// may join, without harm to the agreement of grid and settlements.
pub proof fn lemma_layout_kept(
    matrix: Seq<Seq<Cell>>,
    before: Seq<Settlement>,
    after: Seq<Settlement>,
    size: int,
)
    requires
        consistent(matrix, before, size),
        extends_layout(before, after),
    ensures
        consistent(matrix, after, size),
{
    assert forall|n: int, m: int| 0 <= n < m < after.len() implies (#[trigger] after[n]).id != (
    #[trigger] after[m]).id by {
        assert(before[n].id != before[m].id);
    }
    assert forall|n: int| 0 <= n < after.len() implies (#[trigger] after[n]).position.inside(size)
        && cell_of(matrix, after[n].position) == Cell::Settled(after[n].id) by {
        assert(before[n].position.inside(size));
    }
    assert forall|n: int, i: int|
        0 <= n < after.len() && 0 <= i < after[n].households.len() && (#[trigger] patch_of(
            after,
            n,
            i,
        )) is Some implies patch_of(after, n, i)->Some_0.inside(size) && cell_of(
        matrix,
        patch_of(after, n, i)->Some_0,
    ) == Cell::Claimed(after[n].id) by {
        if i < before[n].households.len() {
            assert(patch_of(after, n, i) == patch_of(before, n, i));
            assert(after[n].id == before[n].id);
        }
    }
    assert forall|n: int, i: int, j: int|
        0 <= n < after.len() && 0 <= i < j < after[n].households.len() && patch_of(after, n, i)
            is Some implies #[trigger] patch_of(after, n, i) != #[trigger] patch_of(after, n, j) by {
        assert(after[n].id == before[n].id);
        if j < before[n].households.len() {
            assert(patch_of(before, n, i) != patch_of(before, n, j));
        }
    }
    assert forall|p: Index| p.inside(size) && (#[trigger] cell_of(matrix, p)) is Claimed implies exists|
        n: int,
        i: int,
    | #[trigger] owns(after, n, i, cell_of(matrix, p)->Claimed_0, p) by {
        let sid = cell_of(matrix, p)->Claimed_0;
        {
            let (n, i) = choose|n: int, i: int| #[trigger] owns(before, n, i, sid, p);
            assert(after[n].id == before[n].id);
            assert(patch_of(after, n, i) == patch_of(before, n, i));
            assert(owns(after, n, i, sid, p));
        }
    }
}

/// A household without a patch may claim an unclaimed cell.
pub proof fn lemma_claim_kept(
    matrix: Seq<Seq<Cell>>,
    claimed: Seq<Seq<Cell>>,
    before: Seq<Settlement>,
    after: Seq<Settlement>,
    size: int,
    n: int,
    i: int,
    p: Index,
)
    requires
        consistent(matrix, before, size),
        0 <= n < before.len(),
        0 <= i < before[n].households.len(),
        patch_of(before, n, i) is None,
        p.inside(size),
        cell_of(matrix, p) == Cell::Unclaimed,
        grid_set(matrix, claimed, size, p, Cell::Claimed(before[n].id)),
        before.len() == after.len(),
        forall|m: int|
            0 <= m < before.len() ==> {
                &&& (#[trigger] after[m]).id == before[m].id
                &&& after[m].position == before[m].position
                &&& before[m].households.len() == after[m].households.len()
            },
        forall|m: int, j: int|
            0 <= m < before.len() && 0 <= j < before[m].households.len() ==> #[trigger] patch_of(
                after,
                m,
                j,
            ) == (if m == n && j == i {
                Some(p)
            } else {
                patch_of(before, m, j)
            }),
    ensures
        consistent(claimed, after, size),
{
    assert forall|m: int, k: int| 0 <= m < k < after.len() implies (#[trigger] after[m]).id != (
    #[trigger] after[k]).id by {
        assert(before[m].id != before[k].id);
    }
    assert forall|m: int| 0 <= m < after.len() implies (#[trigger] after[m]).position.inside(size)
        && cell_of(claimed, after[m].position) == Cell::Settled(after[m].id) by {
        assert(before[m].position.inside(size));
    }
    assert forall|m: int, j: int|
        0 <= m < after.len() && 0 <= j < after[m].households.len() && (#[trigger] patch_of(
            after,
            m,
            j,
        )) is Some implies patch_of(after, m, j)->Some_0.inside(size) && cell_of(
        claimed,
        patch_of(after, m, j)->Some_0,
    ) == Cell::Claimed(after[m].id) by {
        assert(after[m].id == before[m].id);
        if !(m == n && j == i) {
            assert(patch_of(after, m, j) == patch_of(before, m, j));
        }
    }
    assert forall|m: int, j: int, k: int|
        0 <= m < after.len() && 0 <= j < k < after[m].households.len() && patch_of(after, m, j)
            is Some implies #[trigger] patch_of(after, m, j) != #[trigger] patch_of(after, m, k) by {
        assert(after[m].id == before[m].id);
        if m == n && j == i {
            assert(patch_of(after, m, k) == patch_of(before, m, k));
        } else if m == n && k == i {
            assert(patch_of(after, m, j) == patch_of(before, m, j));
        } else {
            assert(patch_of(before, m, j) != patch_of(before, m, k));
        }
    }
    assert forall|q: Index| q.inside(size) && (#[trigger] cell_of(claimed, q)) is Claimed implies exists|
        m: int,
        j: int,
    | #[trigger] owns(after, m, j, cell_of(claimed, q)->Claimed_0, q) by {
        let sid = cell_of(claimed, q)->Claimed_0;
        {
            if q == p {
                assert(after[n].id == before[n].id);
                assert(patch_of(after, n, i) == Some(p));
                assert(owns(after, n, i, sid, q));
            } else {
                assert(cell_of(matrix, q) == cell_of(claimed, q));
                let (m, j) = choose|m: int, j: int| #[trigger] owns(before, m, j, sid, q);
                assert(after[m].id == before[m].id);
                assert(patch_of(after, m, j) == patch_of(before, m, j));
                assert(owns(after, m, j, sid, q));
            }
        }
    }
}

/// A household may leave its settlement if its patch, where it has one,
/// becomes unclaimed.
pub proof fn lemma_release_kept(
    matrix: Seq<Seq<Cell>>,
    released: Seq<Seq<Cell>>,
    before: Seq<Settlement>,
    after: Seq<Settlement>,
    size: int,
    n: int,
    i: int,
)
    requires
        consistent(matrix, before, size),
        0 <= n < before.len(),
        0 <= i < before[n].households.len(),
        patch_of(before, n, i) is Some ==> grid_set(
            matrix,
            released,
            size,
            patch_of(before, n, i)->Some_0,
            Cell::Unclaimed,
        ),
        patch_of(before, n, i) is None ==> released == matrix,
        before.len() == after.len(),
        forall|m: int|
            0 <= m < before.len() ==> {
                &&& (#[trigger] after[m]).id == before[m].id
                &&& after[m].position == before[m].position
                &&& m != n ==> after[m].households@ == before[m].households@
            },
        after[n].households@ == before[n].households@.remove(i),
    ensures
        consistent(released, after, size),
{
    let gone = patch_of(before, n, i);
    assert(grid_ok(released, size));
    assert forall|q: Index| q.inside(size) && Some(q) != gone implies cell_of(released, q)
        == cell_of(matrix, q) by {}
    // where a household of `after` stood in `before`
    let origin = |m: int, j: int|
        if m == n && j >= i {
            j + 1
        } else {
            j
        };
    assert forall|m: int, j: int|
        0 <= m < after.len() && 0 <= j < after[m].households.len() implies #[trigger] patch_of(
        after,
        m,
        j,
    ) == patch_of(before, m, origin(m, j)) && 0 <= origin(m, j) < before[m].households.len() && !(m
        == n && origin(m, j) == i) by {}
    assert forall|m: int, k: int| 0 <= m < k < after.len() implies (#[trigger] after[m]).id != (
    #[trigger] after[k]).id by {
        assert(before[m].id != before[k].id);
    }
    assert forall|m: int| 0 <= m < after.len() implies (#[trigger] after[m]).position.inside(size)
        && cell_of(released, after[m].position) == Cell::Settled(after[m].id) by {
        assert(before[m].position.inside(size));
        if gone is Some {
            assert(cell_of(matrix, gone->Some_0) == Cell::Claimed(before[n].id));
        }
    }
    assert forall|m: int, j: int|
        0 <= m < after.len() && 0 <= j < after[m].households.len() && (#[trigger] patch_of(
            after,
            m,
            j,
        )) is Some implies patch_of(after, m, j)->Some_0.inside(size) && cell_of(
        released,
        patch_of(after, m, j)->Some_0,
    ) == Cell::Claimed(after[m].id) by {
        let o = origin(m, j);
        assert(after[m].id == before[m].id);
        assert(patch_of(after, m, j) == patch_of(before, m, o));
        if patch_of(before, m, o) == gone {
            if m == n {
                if o < i {
                    assert(patch_of(before, n, o) != patch_of(before, n, i));
                } else {
                    assert(patch_of(before, n, i) != patch_of(before, n, o));
                }
            } else if m < n {
                assert(before[m].id != before[n].id);
            } else {
                assert(before[n].id != before[m].id);
            }
        }
    }
    assert forall|m: int, j: int, k: int|
        0 <= m < after.len() && 0 <= j < k < after[m].households.len() && patch_of(after, m, j)
            is Some implies #[trigger] patch_of(after, m, j) != #[trigger] patch_of(after, m, k) by {
        assert(patch_of(after, m, j) == patch_of(before, m, origin(m, j)));
        assert(patch_of(after, m, k) == patch_of(before, m, origin(m, k)));
        assert(patch_of(before, m, origin(m, j)) != patch_of(before, m, origin(m, k)));
    }
    assert forall|q: Index| q.inside(size) && (#[trigger] cell_of(released, q)) is Claimed implies exists|
        m: int,
        j: int,
    | #[trigger] owns(after, m, j, cell_of(released, q)->Claimed_0, q) by {
        let sid = cell_of(released, q)->Claimed_0;
        assert(Some(q) != gone);
        assert(cell_of(matrix, q) == cell_of(released, q));
        let (m, o) = choose|m: int, o: int| #[trigger] owns(before, m, o, sid, q);
        let j = if m == n && o > i {
            o - 1
        } else {
            o
        };
        assert(origin(m, j) == o);
        assert(after[m].id == before[m].id);
        assert(patch_of(after, m, j) == patch_of(before, m, o));
        assert(owns(after, m, j, sid, q));
    }
}

/// A settlement without households may leave the world; the last settlement
/// takes its place.
pub proof fn lemma_delete_kept(
    matrix: Seq<Seq<Cell>>,
    before: Seq<Settlement>,
    after: Seq<Settlement>,
    size: int,
    n: int,
)
    requires
        consistent(matrix, before, size),
        0 <= n < before.len(),
        before[n].households.len() == 0,
        after == before.update(n, before.last()).drop_last(),
    ensures
        consistent(matrix, after, size),
{
    let last = before.len() - 1;
    let origin = |m: int|
        if m == n {
            last
        } else {
            m
        };
    assert forall|m: int| 0 <= m < after.len() implies #[trigger] after[m] == before[origin(m)] by {}
    assert forall|m: int, k: int| 0 <= m < k < after.len() implies (#[trigger] after[m]).id != (
    #[trigger] after[k]).id by {
        let a = origin(m);
        let b = origin(k);
        if a < b {
            assert(before[a].id != before[b].id);
        } else {
            assert(before[b].id != before[a].id);
        }
    }
    assert forall|m: int| 0 <= m < after.len() implies (#[trigger] after[m]).position.inside(size)
        && cell_of(matrix, after[m].position) == Cell::Settled(after[m].id) by {
        assert(before[origin(m)].position.inside(size));
    }
    assert forall|m: int, j: int|
        0 <= m < after.len() && 0 <= j < after[m].households.len() && (#[trigger] patch_of(
            after,
            m,
            j,
        )) is Some implies patch_of(after, m, j)->Some_0.inside(size) && cell_of(
        matrix,
        patch_of(after, m, j)->Some_0,
    ) == Cell::Claimed(after[m].id) by {
        assert(patch_of(after, m, j) == patch_of(before, origin(m), j));
    }
    assert forall|m: int, j: int, k: int|
        0 <= m < after.len() && 0 <= j < k < after[m].households.len() && patch_of(after, m, j)
            is Some implies #[trigger] patch_of(after, m, j) != #[trigger] patch_of(after, m, k) by {
        assert(patch_of(after, m, j) == patch_of(before, origin(m), j));
        assert(patch_of(after, m, k) == patch_of(before, origin(m), k));
        assert(patch_of(before, origin(m), j) != patch_of(before, origin(m), k));
    }
    assert forall|q: Index| q.inside(size) && (#[trigger] cell_of(matrix, q)) is Claimed implies exists|
        m: int,
        j: int,
    | #[trigger] owns(after, m, j, cell_of(matrix, q)->Claimed_0, q) by {
        let sid = cell_of(matrix, q)->Claimed_0;
        let (o, j) = choose|o: int, j: int| #[trigger] owns(before, o, j, sid, q);
        let m = if o == last {
            n
        } else {
            o
        };
        assert(after[m] == before[o]);
        assert(patch_of(after, m, j) == patch_of(before, o, j));
        assert(owns(after, m, j, sid, q));
    }
}

/// A settlement whose households have no patch may be founded on an
/// unclaimed cell, under an id that no settlement has.
pub proof fn lemma_found_kept(
    matrix: Seq<Seq<Cell>>,
    settled: Seq<Seq<Cell>>,
    before: Seq<Settlement>,
    founded: Settlement,
    size: int,
)
    requires
        consistent(matrix, before, size),
        founded.position.inside(size),
        cell_of(matrix, founded.position) == Cell::Unclaimed,
        grid_set(matrix, settled, size, founded.position, Cell::Settled(founded.id)),
        forall|n: int| 0 <= n < before.len() ==> (#[trigger] before[n]).id != founded.id,
        forall|i: int|
            0 <= i < founded.households.len() ==> (
            #[trigger] founded.households[i]).resource_patch is None,
    ensures
        consistent(settled, before.push(founded), size),
{
    let after = before.push(founded);
    let p = founded.position;
    assert forall|n: int, m: int| 0 <= n < m < after.len() implies (#[trigger] after[n]).id != (
    #[trigger] after[m]).id by {
        if m < before.len() {
            assert(before[n].id != before[m].id);
        } else {
            assert(before[n].id != founded.id);
        }
    }
    assert forall|n: int| 0 <= n < after.len() implies (#[trigger] after[n]).position.inside(size)
        && cell_of(settled, after[n].position) == Cell::Settled(after[n].id) by {
        if n < before.len() {
            assert(before[n].position.inside(size));
        }
    }
    assert forall|n: int, i: int|
        0 <= n < after.len() && 0 <= i < after[n].households.len() && (#[trigger] patch_of(
            after,
            n,
            i,
        )) is Some implies patch_of(after, n, i)->Some_0.inside(size) && cell_of(
        settled,
        patch_of(after, n, i)->Some_0,
    ) == Cell::Claimed(after[n].id) by {
        if n < before.len() {
            assert(patch_of(after, n, i) == patch_of(before, n, i));
        } else {
            assert(founded.households[i].resource_patch is None);
        }
    }
    assert forall|n: int, i: int, j: int|
        0 <= n < after.len() && 0 <= i < j < after[n].households.len() && patch_of(after, n, i)
            is Some implies #[trigger] patch_of(after, n, i) != #[trigger] patch_of(after, n, j) by {
        if n < before.len() {
            assert(patch_of(before, n, i) != patch_of(before, n, j));
        } else {
            assert(founded.households[i].resource_patch is None);
        }
    }
    assert forall|q: Index| q.inside(size) && (#[trigger] cell_of(settled, q)) is Claimed implies exists|
        n: int,
        i: int,
    | #[trigger] owns(after, n, i, cell_of(settled, q)->Claimed_0, q) by {
        let sid = cell_of(settled, q)->Claimed_0;
        assert(q != p);
        assert(cell_of(matrix, q) == cell_of(settled, q));
        let (n, i) = choose|n: int, i: int| #[trigger] owns(before, n, i, sid, q);
        assert(patch_of(after, n, i) == patch_of(before, n, i));
        assert(owns(after, n, i, sid, q));
    }
}

/// How many cells of a row are unclaimed.
pub open spec fn free_in_row(row: Seq<Cell>) -> nat
    decreases row.len(),
{
    if row.len() == 0 {
        0
    } else {
        free_in_row(row.drop_last()) + if row.last() == Cell::Unclaimed {
            1nat
        } else {
            0nat
        }
    }
}

/// How many cells of each row are unclaimed.
pub open spec fn free_rows(matrix: Seq<Seq<Cell>>) -> Seq<nat> {
    matrix.map_values(|row: Seq<Cell>| free_in_row(row))
}

/// How many cells of the grid are unclaimed.
pub open spec fn free_cells(matrix: Seq<Seq<Cell>>) -> nat {
    sum(free_rows(matrix))
}

/// One more cell of the row adds one to the count if it is unclaimed.
pub proof fn lemma_free_step(row: Seq<Cell>, c: int)
    requires
        0 <= c < row.len(),
    ensures
        free_in_row(row.take(c + 1)) == free_in_row(row.take(c)) + if row[c] == Cell::Unclaimed {
            1nat
        } else {
            0nat
        },
        free_in_row(row.take(0)) == 0,
        free_in_row(row.take(row.len() as int)) == free_in_row(row),
{
    assert(row.take(c + 1).drop_last() =~= row.take(c));
    assert(row.take(row.len() as int) =~= row);
}

/// A row of unclaimed cells counts as many as it is long.
pub proof fn lemma_free_all(row: Seq<Cell>)
    requires
        forall|c: int| 0 <= c < row.len() ==> row[c] == Cell::Unclaimed,
    ensures
        free_in_row(row) == row.len(),
    decreases row.len(),
{
    if row.len() > 0 {
        lemma_free_all(row.drop_last());
    }
}

/// To take an unclaimed cell takes one from the count.
pub proof fn lemma_free_taken(row: Seq<Cell>, c: int, cell: Cell)
    requires
        0 <= c < row.len(),
        row[c] == Cell::Unclaimed,
        cell != Cell::Unclaimed,
    ensures
        free_in_row(row.update(c, cell)) + 1 == free_in_row(row),
    decreases row.len(),
{
    if c == row.len() - 1 {
        assert(row.update(c, cell).drop_last() =~= row.drop_last());
    } else {
        lemma_free_taken(row.drop_last(), c, cell);
        assert(row.update(c, cell).drop_last() =~= row.drop_last().update(c, cell));
    }
}

} // verus!
