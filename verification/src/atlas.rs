//! The positional index: which named tile sits in which cell of the square
//! grid that the megatexture is laid out on.

use vstd::prelude::*;
use vstd::arithmetic::div_mod::{
    lemma_fundamental_div_mod, lemma_div_pos_is_pos, lemma_multiply_divide_lt,
};
use vstd::arithmetic::mul::lemma_mul_upper_bound;

verus! {

/// `s` is the side of the smallest `s` by `s` grid with at least `n` cells,
/// that is, the ceiling of the square root of `n`.
pub open spec fn is_grid_side(n: int, s: int) -> bool {
    &&& 0 <= s
    &&& n <= s * s
    &&& (s == 0 || (s - 1) * (s - 1) < n)
}

/// Column of the cell that placement order index `i` falls in, row-major.
pub open spec fn grid_x(i: int, s: int) -> int {
    i % s
}

/// Row of the cell that placement order index `i` falls in, row-major.
pub open spec fn grid_y(i: int, s: int) -> int {
    i / s
}

/// Mathematical model of one placed square.
pub ghost struct SquareModel {
    pub name: Seq<char>,
    pub x: u32,
    pub y: u32,
}

/// Mathematical model of an atlas.
pub ghost struct AtlasModel {
    pub pack_name: Option<Seq<char>>,
    pub side_length: u32,
    pub squares: Seq<SquareModel>,
}

impl AtlasModel {
    /// Every square sits inside the grid.
    pub open spec fn in_bounds(self) -> bool {
        forall|i: int|
            0 <= i < self.squares.len() ==> (#[trigger] self.squares[i]).x < self.side_length
                && self.squares[i].y < self.side_length
    }

    /// The atlas invariant: the side is the ceiling square root of the square
    /// count, every square is in bounds, and no two squares share a cell.
    pub open spec fn wf(self) -> bool {
        &&& is_grid_side(self.squares.len() as int, self.side_length as int)
        &&& self.in_bounds()
        &&& forall|i: int, j: int|
            0 <= i < j < self.squares.len() ==> !((#[trigger] self.squares[i]).x == (
            #[trigger] self.squares[j]).x && self.squares[i].y == self.squares[j].y)
    }
}

/// One placed tile: the entry name it came from and its grid cell, in tile
/// units, not pixels.
#[derive(Debug, Clone)]
pub struct AtlasSquare {
    pub name: String,
    pub x: u32,
    pub y: u32,
}

impl View for AtlasSquare {
    type V = SquareModel;

    open spec fn view(&self) -> SquareModel {
        SquareModel { name: self.name@, x: self.x, y: self.y }
    }
}

impl DeepView for AtlasSquare {
    type V = SquareModel;

    open spec fn deep_view(&self) -> SquareModel {
        self@
    }
}

/// The atlas: an `N` by `N` grid of tile cells and the squares placed on it,
/// kept in placement order, row-major, top row first, left to right. The
/// optional pack name is a descriptive label carried for diagnostics only,
/// never used in placement.
#[derive(Debug, Clone)]
pub struct Atlas {
    pub pack_name: Option<String>,
    pub side_length: u32,
    pub squares: Vec<AtlasSquare>,
}

impl View for Atlas {
    type V = AtlasModel;

    open spec fn view(&self) -> AtlasModel {
        AtlasModel {
            pack_name: self.pack_name.deep_view(),
            side_length: self.side_length,
            squares: self.squares.deep_view(),
        }
    }
}

/// The smallest `s` with `s * s >= n`.
#[verifier::loop_isolation(false)]
fn ceil_sqrt(n: usize) -> (s: u32)
    requires
        n <= u32::MAX,
    ensures
        is_grid_side(n as int, s as int),
{
    let mut s: u32 = 0;
    let mut sq: u64 = 0;
    while sq < n as u64
        invariant
            s <= 0x10000,
            s <= n,
            sq == (s as int) * (s as int),
            s == 0 || (s - 1) * (s - 1) < n,
        decreases n as int - s as int,
    {
        proof {
            assert(s < 0x10000) by (nonlinear_arith)
                requires
                    (s as int) * (s as int) < 0x1_0000_0000,
                    s >= 0,
            ;
            assert(s as int <= (s as int) * (s as int)) by (nonlinear_arith)
                requires
                    s >= 0,
            ;
            assert((s as int) * (s as int) + 2 * (s as int) + 1 == (s as int + 1) * (s as int + 1))
                by (nonlinear_arith);
            assert((s as int) * (s as int) < (s as int + 1) * (s as int + 1)) by (nonlinear_arith);
        }
        sq = sq + 2 * (s as u64) + 1;
        s = s + 1;
    }
    s
}

impl Atlas {
    /// Builds the atlas for the given names: computes the grid side as the
    /// ceiling square root of the count, then walks the cells row-major and
    /// consumes one name per cell, front to back, so that placement order is
    /// exactly the order the names arrive in.
    #[verifier::loop_isolation(false)]
    pub fn new(names: Vec<String>) -> (r: Atlas)
        requires
            names@.len() <= u32::MAX,
        ensures
            r@.wf(),
            r@.pack_name is None,
            is_grid_side(names@.len() as int, r@.side_length as int),
            r@.squares.len() == names@.len(),
            forall|i: int|
                0 <= i < names@.len() ==> (#[trigger] r@.squares[i]).name == names@[i]@
                    && r@.squares[i].x == grid_x(i, r@.side_length as int) && r@.squares[i].y
                    == grid_y(i, r@.side_length as int),
    {
        let n = names.len();
        let side = ceil_sqrt(n);
        let mut squares: Vec<AtlasSquare> = Vec::new();
        let mut i: usize = 0;
        while i < n
            invariant
                i <= n,
                squares@.len() == i,
                forall|j: int|
                    0 <= j < i ==> (#[trigger] squares@[j])@.name == names@[j]@ && squares@[j]@.x
                        == grid_x(j, side as int) && squares@[j]@.y == grid_y(j, side as int),
            decreases n - i,
        {
            proof {
                assert(side > 0);
                lemma_multiply_divide_lt(i as int, side as int, side as int);
                lemma_div_pos_is_pos(i as int, side as int);
            }
            let x: u32 = (i % (side as usize)) as u32;
            let y: u32 = (i / (side as usize)) as u32;
            squares.push(AtlasSquare { name: names[i].clone(), x, y });
            i = i + 1;
        }
        let r = Atlas { pack_name: None, side_length: side, squares };
        proof {
            lemma_grid_cells(names@.len() as int, side as int);
        }
        r
    }

    /// Number of placed squares.
    pub fn len(&self) -> (r: usize)
        ensures
            r == self@.squares.len(),
    {
        self.squares.len()
    }

    /// Checks the atlas invariant, so that an atlas read from storage can be
    /// validated before compilation.
    pub fn check(&self) -> (r: bool)
        ensures
            r == self@.wf(),
    {
        let n = self.squares.len();
        let s = self.side_length;
        proof {
            lemma_mul_upper_bound(s as int, u32::MAX as int, s as int, u32::MAX as int);
        }
        let big = n as u64 > (s as u64) * (s as u64);
        if big {
            return false;
        }
        if s > 0 {
            proof {
                lemma_mul_upper_bound(s - 1, u32::MAX as int, s - 1, u32::MAX as int);
            }
            let small = (n as u64) <= ((s - 1) as u64) * ((s - 1) as u64);
            if small {
                return false;
            }
        }
        let mut i: usize = 0;
        while i < n
            invariant
                i <= n,
                n == self@.squares.len(),
                is_grid_side(n as int, self.side_length as int),
                forall|a: int|
                    0 <= a < i ==> (#[trigger] self@.squares[a]).x < self@.side_length
                        && self@.squares[a].y < self@.side_length,
                forall|a: int, b: int|
                    0 <= a < b < i ==> !((#[trigger] self@.squares[a]).x == (
                    #[trigger] self@.squares[b]).x && self@.squares[a].y == self@.squares[b].y),
            decreases n - i,
        {
            let sq = &self.squares[i];
            if !(sq.x < self.side_length && sq.y < self.side_length) {
                proof {
                    assert(self@.wf() ==> (self@.squares[i as int].x < self@.side_length
                        && self@.squares[i as int].y < self@.side_length));
                }
                return false;
            }
            let mut j: usize = 0;
            while j < i
                invariant
                    j <= i,
                    i < n,
                    n == self@.squares.len(),
                    forall|b: int|
                        0 <= b < j ==> !((#[trigger] self@.squares[b]).x == self@.squares[i as int].x
                            && self@.squares[b].y == self@.squares[i as int].y),
                decreases i - j,
            {
                let other = &self.squares[j];
                if other.x == self.squares[i].x && other.y == self.squares[i].y {
                    proof {
                        assert(self@.wf() ==> !(self@.squares[j as int].x
                            == self@.squares[i as int].x && self@.squares[j as int].y
                            == self@.squares[i as int].y));
                    }
                    return false;
                }
                j = j + 1;
            }
            i = i + 1;
        }
        true
    }
}

/// For every tile count `n`, the row-major assignment puts each of the `n`
/// placement indices in a cell of the grid of side `s = ceil(sqrt(n))`, with
/// `0 <= x, y < s`, and no two indices in the same cell; since `n <= s * s`,
/// exactly `min(n, s * s) == n` squares are placed.
pub proof fn lemma_grid_cells(n: int, s: int)
    requires
        0 <= n,
        is_grid_side(n, s),
    ensures
        forall|i: int|
            0 <= i < n ==> 0 <= #[trigger] grid_x(i, s) < s && 0 <= #[trigger] grid_y(i, s) < s,
        forall|i: int, j: int|
            0 <= i < n && 0 <= j < n && i != j ==> #[trigger] grid_x(i, s) != #[trigger] grid_x(
                j,
                s,
            ) || grid_y(i, s) != grid_y(j, s),
{
    assert forall|i: int| 0 <= i < n implies 0 <= #[trigger] grid_x(i, s) < s && 0 <= #[trigger] grid_y(
        i,
        s,
    ) < s by {
        lemma_multiply_divide_lt(i, s, s);
        lemma_div_pos_is_pos(i, s);
    }
    assert forall|i: int, j: int|
        0 <= i < n && 0 <= j < n && i != j implies #[trigger] grid_x(i, s) != #[trigger] grid_x(
        j,
        s,
    ) || grid_y(i, s) != grid_y(j, s) by {
        lemma_fundamental_div_mod(i, s);
        lemma_fundamental_div_mod(j, s);
    }
}

} // verus!
