//! Coordinates on the square grid and the state of a cell.

use crate::units::SCALE;
use vstd::prelude::*;

verus! {

/// `root` is the square root of `n`, rounded down.
pub open spec fn is_root(n: nat, root: nat) -> bool {
    root * root <= n < (root + 1) * (root + 1)
}

/// The square root of `n`, rounded down.
pub fn integer_root(n: u128) -> (root: u64)
    requires
        n < 0x4000_0000_0000_0000_0000_0000_0000_0000,
    ensures
        is_root(n as nat, root as nat),
{
    let mut low: u64 = 0;
    let mut high: u64 = 0x8000_0000_0000_0000;
    assert(0 * 0 == 0 && 0x8000_0000_0000_0000u64 * 0x8000_0000_0000_0000u64
        == 0x4000_0000_0000_0000_0000_0000_0000_0000int) by (nonlinear_arith);
    while high - low > 1
        invariant
            low < high <= 0x8000_0000_0000_0000,
            low * low <= n < high * high,
        decreases high - low,
    {
        let mid: u64 = low + (high - low) / 2;
        assert(mid * mid < 0x8000_0000_0000_0000 * 0x8000_0000_0000_0000) by (nonlinear_arith)
            requires
                0 <= mid < 0x8000_0000_0000_0000,
        ;
        let square: u128 = (mid as u128) * (mid as u128);
        if square <= n {
            low = mid;
        } else {
            high = mid;
        }
    }
    low
}

/// A coordinate on the grid: the row, then the column.
#[derive(Clone, Copy, PartialEq, Eq, Structural, Debug)]
pub struct Index(pub usize, pub usize);

/// What stands on a cell. A cell is in exactly one of these states.
#[derive(Clone, Copy, PartialEq, Eq, Structural, Debug)]
pub enum Cell {
    /// The anchor of the settlement with this id; it stays so for the whole run.
    Settled(u32),
    /// The patch of a household of the settlement with this id.
    Claimed(u32),
    /// Free to be claimed.
    Unclaimed,
}

/// The sequence that holds `p` if `keep` is true and nothing otherwise.
pub open spec fn only_if(keep: bool, p: Index) -> Seq<Index> {
    if keep {
        seq![p]
    } else {
        Seq::empty()
    }
}

impl Index {
    /// Both coordinates lie in `[0, size)`.
    pub open spec fn inside(self, size: int) -> bool {
        self.0 < size && self.1 < size
    }

    /// `other` is one step away along one axis.
    pub open spec fn adjacent(self, other: Index) -> bool {
        ||| self.0 == other.0 && (self.1 + 1 == other.1 || other.1 + 1 == self.1)
        ||| self.1 == other.1 && (self.0 + 1 == other.0 || other.0 + 1 == self.0)
    }

    /// The neighbours of `self` on a grid of side `size`: the steps to the next
    /// column, the next row, the previous column and the previous row, in this
    /// order, without those that leave the grid.
    pub open spec fn surroundings_spec(self, size: int) -> Seq<Index> {
        let r = self.0 as int;
        let c = self.1 as int;
        only_if(r < size && c + 1 < size, Index(self.0, (c + 1) as usize)) + only_if(
            r + 1 < size && c < size,
            Index((r + 1) as usize, self.1),
        ) + only_if(1 <= c && r < size && c - 1 < size, Index(self.0, (c - 1) as usize)) + only_if(
            1 <= r && r - 1 < size && c < size,
            Index((r - 1) as usize, self.1),
        )
    }

    /// The square of the Euclidean distance between two coordinates.
    pub open spec fn dist_squared_spec(self, other: Index) -> nat {
        let dr = self.0 as int - other.0 as int;
        let dc = self.1 as int - other.1 as int;
        (dr * dr + dc * dc) as nat
    }

    /// The in-bounds neighbours in their fixed order.
    pub fn surroundings(&self, size: isize) -> (around: Vec<Index>)
        ensures
            around@ == self.surroundings_spec(size as int),
    {
        let mut around: Vec<Index> = Vec::new();
        if size <= 0 {
            assert(around@ =~= self.surroundings_spec(size as int));
            return around;
        }
        let n: usize = size as usize;
        let r: usize = self.0;
        let c: usize = self.1;
        if r < n && c < n - 1 {
            around.push(Index(r, c + 1));
        }
        if c < n && r < n - 1 {
            around.push(Index(r + 1, c));
        }
        if r < n && 1 <= c && c - 1 < n {
            around.push(Index(r, c - 1));
        }
        if c < n && 1 <= r && r - 1 < n {
            around.push(Index(r - 1, c));
        }
        assert(around@ =~= self.surroundings_spec(size as int));
        around
    }

    /// The two coordinates as signed integers.
    pub fn as_isize(&self) -> (pair: (isize, isize))
        ensures
            self.0 <= isize::MAX ==> pair.0 == self.0,
            self.1 <= isize::MAX ==> pair.1 == self.1,
    {
        (
            #[verifier::truncate]
            (self.0 as isize),
            #[verifier::truncate]
            (self.1 as isize),
        )
    }

    /// The Euclidean distance to `other` as a fixed-point number, rounded down.
    pub fn dist(&self, other: Index) -> (d: u64)
        requires
            self.0 <= u32::MAX,
            self.1 <= u32::MAX,
            other.0 <= u32::MAX,
            other.1 <= u32::MAX,
        ensures
            is_root((self.dist_squared_spec(other) * SCALE * SCALE) as nat, d as nat),
    {
        let squared: u128 = self.dist_squared(other);
        assert(squared * 1_000_000_000_000 <= 0x2_0000_0000_0000_0000 * 1_000_000_000_000
            && squared * SCALE * SCALE == squared * 1_000_000_000_000) by (nonlinear_arith)
            requires
                squared <= 0x2_0000_0000_0000_0000,
                SCALE == 1_000_000,
        ;
        integer_root(squared * 1_000_000_000_000)
    }

    /// The square of the Euclidean distance to `other`.
    pub fn dist_squared(&self, other: Index) -> (d: u128)
        requires
            self.0 <= u32::MAX,
            self.1 <= u32::MAX,
            other.0 <= u32::MAX,
            other.1 <= u32::MAX,
        ensures
            d == self.dist_squared_spec(other),
            d <= 0x2_0000_0000_0000_0000,
    {
        let dr: u128 = if self.0 >= other.0 {
            (self.0 - other.0) as u128
        } else {
            (other.0 - self.0) as u128
        };
        let dc: u128 = if self.1 >= other.1 {
            (self.1 - other.1) as u128
        } else {
            (other.1 - self.1) as u128
        };
        assert(dr * dr <= 0x1_0000_0000_0000_0000 && dc * dc <= 0x1_0000_0000_0000_0000
            && dr * dr == (self.0 as int - other.0 as int) * (self.0 as int - other.0 as int)
            && dc * dc == (self.1 as int - other.1 as int) * (self.1 as int - other.1 as int))
            by (nonlinear_arith)
            requires
                dr <= 0xffff_ffff,
                dc <= 0xffff_ffff,
                dr == self.0 as int - other.0 as int || dr == other.0 as int - self.0 as int,
                dc == self.1 as int - other.1 as int || dc == other.1 as int - self.1 as int,
        ;
        dr * dr + dc * dc
    }
}

/// Every neighbour lies inside the grid, one step away.
pub proof fn lemma_surroundings_sound(p: Index, size: int, k: int)
    requires
        0 <= k < p.surroundings_spec(size).len(),
        size <= usize::MAX,
    ensures
        p.surroundings_spec(size)[k].inside(size),
        p.adjacent(p.surroundings_spec(size)[k]),
{
    let s = p.surroundings_spec(size);
    let r = p.0 as int;
    let c = p.1 as int;
    let e = only_if(r < size && c + 1 < size, Index(p.0, (c + 1) as usize));
    let so = only_if(r + 1 < size && c < size, Index((r + 1) as usize, p.1));
    let w = only_if(1 <= c && r < size && c - 1 < size, Index(p.0, (c - 1) as usize));
    let n = only_if(1 <= r && r - 1 < size && c < size, Index((r - 1) as usize, p.1));
    assert(s == e + so + w + n);
    if k < e.len() {
        assert(s[k] == e[k]);
    } else if k < e.len() + so.len() {
        assert(s[k] == so[k - e.len()]);
    } else if k < e.len() + so.len() + w.len() {
        assert(s[k] == w[k - e.len() - so.len()]);
    } else {
        assert(s[k] == n[k - e.len() - so.len() - w.len()]);
    }
}

/// Every cell of the grid one step away from a cell of the grid is among its neighbours.
pub proof fn lemma_surroundings_complete(p: Index, q: Index, size: int)
    requires
        p.inside(size),
        q.inside(size),
        p.adjacent(q),
    ensures
        p.surroundings_spec(size).contains(q),
{
    let s = p.surroundings_spec(size);
    let r = p.0 as int;
    let c = p.1 as int;
    let e = only_if(r < size && c + 1 < size, Index(p.0, (c + 1) as usize));
    let so = only_if(r + 1 < size && c < size, Index((r + 1) as usize, p.1));
    let w = only_if(1 <= c && r < size && c - 1 < size, Index(p.0, (c - 1) as usize));
    let n = only_if(1 <= r && r - 1 < size && c < size, Index((r - 1) as usize, p.1));
    assert(s == e + so + w + n);
    if p.0 == q.0 && p.1 + 1 == q.1 {
        assert(s[0] == q);
    } else if p.1 == q.1 && p.0 + 1 == q.0 {
        assert(s[e.len() as int] == q);
    } else if p.0 == q.0 && q.1 + 1 == p.1 {
        assert(s[(e.len() + so.len()) as int] == q);
    } else {
        assert(s[(e.len() + so.len() + w.len()) as int] == q);
    }
}

} // verus!
