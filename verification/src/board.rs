//! A multi-layer grid of [`Tile`]s: the document the editor paints into and
//! the input the board compiler reads.

use vstd::prelude::*;

use crate::tile::{delta_spec, Direction, Tile};

verus! {

/// A cell address: which `layer`, and the in-plane `(x, y)`.
#[derive(Clone, Copy, PartialEq, Eq, Hash, Debug, Structural)]
pub struct Cell {
    pub layer: u32,
    pub x: u32,
    pub y: u32,
}

/// The map key of a cell: its three coordinates packed into one integer.
pub open spec fn cell_key(c: Cell) -> u128 {
    (c.layer * 0x1_0000_0000_0000_0000int + c.x * 0x1_0000_0000int + c.y) as u128
}

/// Distinct cells have distinct keys.
pub proof fn lemma_cell_key_injective(c1: Cell, c2: Cell)
    requires
        cell_key(c1) == cell_key(c2),
    ensures
        c1 == c2,
{
}

impl Cell {
    pub fn new(layer: u32, x: u32, y: u32) -> (c: Self)
        ensures
            c == (Cell { layer, x, y }),
    {
        Cell { layer, x, y }
    }

    /// The map key of this cell.
    pub fn key(self) -> (k: u128)
        ensures
            k == cell_key(self),
    {
        self.layer as u128 * 0x1_0000_0000_0000_0000u128 + self.x as u128 * 0x1_0000_0000u128 + self.y as u128
    }
}

/// A stack of identically sized grids. Layer 0 is the bottom; layers connect
/// only through via stacks. Tiles are stored row-major within a layer,
/// layers outermost: `tiles[(layer * height + y) * width + x]`.
#[derive(Clone, Debug)]
pub struct Board {
    layers: u32,
    width: u32,
    height: u32,
    tiles: Vec<Tile>,
}

impl Board {
    pub closed spec fn layers_spec(&self) -> nat {
        self.layers as nat
    }

    pub closed spec fn width_spec(&self) -> nat {
        self.width as nat
    }

    pub closed spec fn height_spec(&self) -> nat {
        self.height as nat
    }

    /// The stored tiles in storage order.
    pub closed spec fn tiles_spec(&self) -> Seq<Tile> {
        self.tiles@
    }

    /// Number of cells (every layer, every position).
    pub open spec fn size(&self) -> nat {
        self.layers_spec() * self.width_spec() * self.height_spec()
    }

    /// Non-zero dimensions, one stored tile per cell, and a cell count that
    /// fits the `u32` cell arithmetic.
    pub open spec fn wf(&self) -> bool {
        &&& self.layers_spec() > 0
        &&& self.width_spec() > 0
        &&& self.height_spec() > 0
        &&& self.tiles_spec().len() == self.size()
        &&& self.size() <= u32::MAX
    }

    pub open spec fn contains_spec(&self, c: Cell) -> bool {
        c.layer < self.layers_spec() && c.x < self.width_spec() && c.y < self.height_spec()
    }

    /// Storage position of a cell.
    pub open spec fn index_spec(&self, c: Cell) -> int {
        (c.layer * self.height_spec() + c.y) * self.width_spec() + c.x
    }

    /// The cell stored at position `i`.
    pub open spec fn cell_of(&self, i: int) -> Cell {
        let plane = self.width_spec() * self.height_spec();
        Cell {
            layer: (i / plane as int) as u32,
            x: ((i % plane as int) % self.width_spec() as int) as u32,
            y: ((i % plane as int) / self.width_spec() as int) as u32,
        }
    }

    /// The tile at `c`, or `Empty` anywhere off the board.
    pub open spec fn tile_at(&self, c: Cell) -> Tile {
        if self.contains_spec(c) {
            self.tiles_spec()[self.index_spec(c)]
        } else {
            Tile::Empty
        }
    }

    /// The non-empty cells with their tiles among the first `n` positions.
    pub open spec fn occupied_upto(&self, n: int) -> Seq<(Cell, Tile)>
        decreases n,
    {
        if n <= 0 {
            Seq::empty()
        } else {
            let prev = self.occupied_upto(n - 1);
            let t = self.tiles_spec()[n - 1];
            if t == Tile::Empty {
                prev
            } else {
                prev.push((self.cell_of(n - 1), t))
            }
        }
    }

    /// Every non-empty cell with its tile, in storage order.
    pub open spec fn occupied(&self) -> Seq<(Cell, Tile)> {
        self.occupied_upto(self.tiles_spec().len() as int)
    }

    /// The in-plane neighbour of `c` in `dir`, when it lies on the board.
    /// Coordinates are stepped as wide integers and stored back as `u32`.
    pub open spec fn neighbour_spec(&self, c: Cell, dir: Direction) -> Option<Cell> {
        let x = c.x + delta_spec(dir).0;
        let y = c.y + delta_spec(dir).1;
        if x < 0 || y < 0 {
            None
        } else {
            let n = Cell { layer: c.layer, x: x as u32, y: y as u32 };
            if self.contains_spec(n) {
                Some(n)
            } else {
                None
            }
        }
    }

    /// The cells directly below and above `c` that are on the board, lower first.
    pub open spec fn vertical_spec(&self, c: Cell) -> Seq<Cell> {
        let below = Cell { layer: (c.layer - 1) as u32, x: c.x, y: c.y };
        let above = Cell { layer: (c.layer + 1) as u32, x: c.x, y: c.y };
        let s1 = if c.layer > 0 && self.contains_spec(below) {
            seq![below]
        } else {
            Seq::empty()
        };
        if c.layer < u32::MAX && self.contains_spec(above) {
            s1.push(above)
        } else {
            s1
        }
    }

    /// An empty board of the given dimensions (all dimensions non-zero).
    pub fn new(layers: u32, width: u32, height: u32) -> (b: Self)
        requires
            layers > 0 && width > 0 && height > 0,
            layers * width * height <= u32::MAX,
        ensures
            b.wf(),
            b.layers_spec() == layers,
            b.width_spec() == width,
            b.height_spec() == height,
            forall|c: Cell| #[trigger] b.tile_at(c) == Tile::Empty,
    {
        proof {
            assert(layers * width <= layers * width * height) by (nonlinear_arith)
                requires
                    height > 0,
            ;
        }
        let len = layers as usize * width as usize * height as usize;
        let mut tiles: Vec<Tile> = Vec::new();
        let mut i: usize = 0;
        while i < len
            invariant
                i <= len,
                tiles@.len() == i,
                forall|j: int| 0 <= j < i ==> tiles@[j] == Tile::Empty,
            decreases len - i,
        {
            tiles.push(Tile::Empty);
            i += 1;
        }
        let b = Board { layers, width, height, tiles };
        proof {
            assert forall|c: Cell| #[trigger] b.tile_at(c) == Tile::Empty by {
                if b.contains_spec(c) {
                    lemma_index_in_range(b, c);
                }
            }
        }
        b
    }

    pub fn layers(&self) -> (r: u32)
        ensures
            r == self.layers_spec(),
    {
        self.layers
    }

    pub fn width(&self) -> (r: u32)
        ensures
            r == self.width_spec(),
    {
        self.width
    }

    pub fn height(&self) -> (r: u32)
        ensures
            r == self.height_spec(),
    {
        self.height
    }

    /// Whether a cell lies inside the grid.
    pub fn contains(&self, cell: Cell) -> (r: bool)
        ensures
            r == self.contains_spec(cell),
    {
        cell.layer < self.layers && cell.x < self.width && cell.y < self.height
    }

    fn index(&self, cell: Cell) -> (r: Option<usize>)
        requires
            self.wf(),
        ensures
            r is Some <==> self.contains_spec(cell),
            r matches Some(i) ==> i == self.index_spec(cell) && i < self.tiles_spec().len(),
    {
        if self.contains(cell) {
            proof {
                lemma_index_in_range(*self, cell);
            }
            Some(
                (cell.layer as usize * self.height as usize + cell.y as usize) * self.width as usize
                    + cell.x as usize,
            )
        } else {
            None
        }
    }

    /// The tile at `cell`, or `Tile::Empty` for any out-of-bounds address.
    pub fn get(&self, cell: Cell) -> (t: Tile)
        requires
            self.wf(),
        ensures
            t == self.tile_at(cell),
    {
        match self.index(cell) {
            Some(i) => self.tiles[i],
            None => Tile::Empty,
        }
    }

    /// Overwrite `cell`; out-of-bounds writes are ignored.
    pub fn set(&mut self, cell: Cell, tile: Tile)
        requires
            old(self).wf(),
        ensures
            final(self).wf(),
            final(self).layers_spec() == old(self).layers_spec(),
            final(self).width_spec() == old(self).width_spec(),
            final(self).height_spec() == old(self).height_spec(),
            forall|c: Cell|
                #[trigger] final(self).tile_at(c) == if c == cell && old(self).contains_spec(cell) {
                    tile
                } else {
                    old(self).tile_at(c)
                },
    {
        if let Some(i) = self.index(cell) {
            self.tiles.set(i, tile);
            proof {
                assert forall|c: Cell|
                    #[trigger] self.tile_at(c) == if c == cell && old(self).contains_spec(cell) {
                        tile
                    } else {
                        old(self).tile_at(c)
                    } by {
                    if self.contains_spec(c) && c != cell {
                        lemma_index_in_range(*old(self), c);
                        if old(self).contains_spec(cell) && old(self).index_spec(c) == old(self).index_spec(cell) {
                            lemma_index_injective(*old(self), c, cell);
                        }
                    }
                }
            }
        }
    }

    /// The in-plane neighbour of `cell` in `dir`, if it is on the board.
    pub fn neighbour(&self, cell: Cell, dir: Direction) -> (r: Option<Cell>)
        ensures
            r == self.neighbour_spec(cell, dir),
    {
        let (dx, dy) = dir.delta();
        let x = cell.x as i64 + dx as i64;
        let y = cell.y as i64 + dy as i64;
        if x < 0 || y < 0 {
            return None;
        }
        let next = Cell::new(cell.layer, x as u32, y as u32);
        if self.contains(next) {
            Some(next)
        } else {
            None
        }
    }

    /// The cells directly above and below `cell` that exist on the board.
    pub fn vertical_neighbours(&self, cell: Cell) -> (r: Vec<Cell>)
        ensures
            r@ == self.vertical_spec(cell),
    {
        let mut r: Vec<Cell> = Vec::new();
        if cell.layer > 0 {
            let below = Cell::new(cell.layer - 1, cell.x, cell.y);
            if self.contains(below) {
                r.push(below);
            }
        }
        if cell.layer < u32::MAX {
            let above = Cell::new(cell.layer + 1, cell.x, cell.y);
            if self.contains(above) {
                r.push(above);
            }
        }
        assert(r@ =~= self.vertical_spec(cell));
        r
    }

    /// Every non-empty cell with its tile, in storage order.
    pub fn iter(&self) -> (r: Vec<(Cell, Tile)>)
        requires
            self.wf(),
        ensures
            r@ == self.occupied(),
    {
        let w = self.width;
        let h = self.height;
        let len = self.tiles.len();
        proof {
            assert(w * h <= self.size()) by (nonlinear_arith)
                requires
                    self.layers_spec() > 0,
                    self.size() == self.layers_spec() * w * h,
            ;
            assert(w * h > 0) by (nonlinear_arith)
                requires
                    w > 0,
                    h > 0,
            ;
        }
        let plane = w * h;
        let mut r: Vec<(Cell, Tile)> = Vec::new();
        let mut i: usize = 0;
        while i < len
            invariant
                self.wf(),
                len == self.tiles_spec().len(),
                w == self.width_spec(),
                h == self.height_spec(),
                plane == w * h,
                plane > 0,
                i <= len,
                r@ == self.occupied_upto(i as int),
            decreases len - i,
        {
            let tile = self.tiles[i];
            if tile != Tile::Empty {
                let iu = i as u32;
                let layer = iu / plane;
                let rem = iu % plane;
                let c = Cell::new(layer, rem % w, rem / w);
                assert(c == self.cell_of(i as int));
                r.push((c, tile));
            }
            i += 1;
        }
        r
    }

    /// Number of non-empty cells.
    pub fn tile_count(&self) -> (n: usize)
        requires
            self.wf(),
        ensures
            n == self.occupied().len(),
    {
        let len = self.tiles.len();
        let mut n: usize = 0;
        let mut i: usize = 0;
        while i < len
            invariant
                self.wf(),
                len == self.tiles_spec().len(),
                i <= len,
                n == self.occupied_upto(i as int).len(),
                n <= i,
            decreases len - i,
        {
            if self.tiles[i] != Tile::Empty {
                n += 1;
            }
            i += 1;
        }
        n
    }
}

/// A cell on the board has a storage position inside the tile vector.
pub proof fn lemma_index_in_range(b: Board, c: Cell)
    requires
        b.wf(),
        b.contains_spec(c),
    ensures
        0 <= b.index_spec(c) < b.size(),
        c.layer * b.height_spec() <= c.layer * b.height_spec() + c.y,
        (c.layer * b.height_spec() + c.y) <= (c.layer * b.height_spec() + c.y) * b.width_spec(),
        (c.layer * b.height_spec() + c.y) * b.width_spec() <= b.index_spec(c),
{
    let l = b.layers_spec() as int;
    let w = b.width_spec() as int;
    let h = b.height_spec() as int;
    let (cl, cx, cy) = (c.layer as int, c.x as int, c.y as int);
    assert(0 <= (cl * h + cy) * w + cx < l * w * h && (cl * h + cy) <= (cl * h + cy) * w) by (nonlinear_arith)
        requires
            0 <= cl < l,
            0 <= cx < w,
            0 <= cy < h,
    ;
}

/// Distinct cells on the board have distinct storage positions.
pub proof fn lemma_index_injective(b: Board, c1: Cell, c2: Cell)
    requires
        b.wf(),
        b.contains_spec(c1),
        b.contains_spec(c2),
        b.index_spec(c1) == b.index_spec(c2),
    ensures
        c1 == c2,
{
    let w = b.width_spec() as int;
    let h = b.height_spec() as int;
    let (l1, x1, y1) = (c1.layer as int, c1.x as int, c1.y as int);
    let (l2, x2, y2) = (c2.layer as int, c2.x as int, c2.y as int);
    assert(l1 == l2 && x1 == x2 && y1 == y2) by (nonlinear_arith)
        requires
            0 <= x1 < w,
            0 <= x2 < w,
            0 <= y1 < h,
            0 <= y2 < h,
            0 <= l1,
            0 <= l2,
            (l1 * h + y1) * w + x1 == (l2 * h + y2) * w + x2,
    {
        assert((l1 * h + y1) * w + x1 == (l2 * h + y2) * w + x2);
        vstd::arithmetic::div_mod::lemma_fundamental_div_mod_converse(
            (l1 * h + y1) * w + x1,
            w,
            l1 * h + y1,
            x1,
        );
        vstd::arithmetic::div_mod::lemma_fundamental_div_mod_converse(
            (l2 * h + y2) * w + x2,
            w,
            l2 * h + y2,
            x2,
        );
        vstd::arithmetic::div_mod::lemma_fundamental_div_mod_converse(l1 * h + y1, h, l1, y1);
        vstd::arithmetic::div_mod::lemma_fundamental_div_mod_converse(l2 * h + y2, h, l2, y2);
    }
}

/// Position `i` names a cell on the board whose position is `i` again.
pub proof fn lemma_cell_of(b: Board, i: int)
    requires
        b.wf(),
        0 <= i < b.size(),
    ensures
        b.contains_spec(b.cell_of(i)),
        b.index_spec(b.cell_of(i)) == i,
{
    let l = b.layers_spec() as int;
    let w = b.width_spec() as int;
    let h = b.height_spec() as int;
    let plane = w * h;
    assert(w * h > 0) by (nonlinear_arith)
        requires
            w > 0,
            h > 0,
    ;
    let lay = i / plane;
    let rem = i % plane;
    let x = rem % w;
    let y = rem / w;
    vstd::arithmetic::div_mod::lemma_fundamental_div_mod(i, plane);
    vstd::arithmetic::div_mod::lemma_fundamental_div_mod(rem, w);
    vstd::arithmetic::div_mod::lemma_mod_bound(i, plane);
    vstd::arithmetic::div_mod::lemma_mod_bound(rem, w);
    assert(0 <= lay < l && 0 <= y < h && (lay * h + y) * w + x == i) by (nonlinear_arith)
        requires
            l > 0,
            w > 0,
            h > 0,
            plane == w * h,
            0 <= i < l * w * h,
            i == plane * lay + rem,
            0 <= rem < plane,
            rem == w * y + x,
            0 <= x < w,
    ;
    assert(lay <= u32::MAX && y <= u32::MAX && x <= u32::MAX) by (nonlinear_arith)
        requires
            0 <= lay < l,
            0 <= y < h,
            0 <= x < w,
            l <= u32::MAX + 1,
            w <= u32::MAX + 1,
            h <= u32::MAX + 1,
    ;
}

/// What `occupied_upto(n)` lists: non-empty cells on the board, with their
/// tiles, in strictly increasing storage position, and every non-empty cell
/// below position `n`.
pub proof fn lemma_occupied(b: Board, n: int)
    requires
        b.wf(),
        0 <= n <= b.size(),
    ensures
        forall|k: int|
            0 <= k < b.occupied_upto(n).len() ==> {
                let (c, t) = #[trigger] b.occupied_upto(n)[k];
                &&& b.contains_spec(c)
                &&& 0 <= b.index_spec(c) < n
                &&& t == b.tile_at(c)
                &&& t != Tile::Empty
            },
        forall|k1: int, k2: int|
            0 <= k1 < k2 < b.occupied_upto(n).len() ==> b.index_spec(
                (#[trigger] b.occupied_upto(n)[k1]).0,
            ) < b.index_spec((#[trigger] b.occupied_upto(n)[k2]).0),
        forall|c: Cell|
            b.contains_spec(c) && b.index_spec(c) < n && #[trigger] b.tile_at(c) != Tile::Empty
                ==> exists|k: int|
                0 <= k < b.occupied_upto(n).len() && (#[trigger] b.occupied_upto(n)[k]).0 == c,
    decreases n,
{
    if n > 0 {
        lemma_occupied(b, n - 1);
        lemma_cell_of(b, n - 1);
        let prev = b.occupied_upto(n - 1);
        let cur = b.occupied_upto(n);
        assert forall|c: Cell|
            b.contains_spec(c) && b.index_spec(c) < n && #[trigger] b.tile_at(c) != Tile::Empty
                implies exists|k: int| 0 <= k < cur.len() && (#[trigger] cur[k]).0 == c by {
            lemma_index_in_range(b, c);
            if b.index_spec(c) < n - 1 {
                let k = choose|k: int| 0 <= k < prev.len() && (#[trigger] prev[k]).0 == c;
                assert(cur[k] == prev[k]);
            } else {
                lemma_index_injective(b, c, b.cell_of(n - 1));
                assert(cur[prev.len() as int].0 == c);
            }
        }
    }
}

/// `occupied()` lists exactly the non-empty cells of the board, each with
/// its tile.
pub proof fn lemma_occupied_facts(b: Board)
    requires
        b.wf(),
    ensures
        forall|k: int|
            0 <= k < b.occupied().len() ==> {
                &&& b.contains_spec((#[trigger] b.occupied()[k]).0)
                &&& b.occupied()[k].1 == b.tile_at(b.occupied()[k].0)
                &&& b.occupied()[k].1 != Tile::Empty
            },
        forall|c: Cell|
            b.contains_spec(c) && #[trigger] b.tile_at(c) != Tile::Empty ==> exists|k: int|
                0 <= k < b.occupied().len() && (#[trigger] b.occupied()[k]).0 == c,
{
    lemma_occupied(b, b.size() as int);
    assert(b.occupied() == b.occupied_upto(b.size() as int));
    assert forall|c: Cell| b.contains_spec(c) && #[trigger] b.tile_at(c) != Tile::Empty implies exists|k: int|
        0 <= k < b.occupied().len() && (#[trigger] b.occupied()[k]).0 == c by {
        lemma_index_in_range(b, c);
    }
}

/// Each non-empty cell appears exactly once in `occupied()`.
pub proof fn lemma_occupied_unique(b: Board, k1: int, k2: int)
    requires
        b.wf(),
        0 <= k1 < b.occupied().len(),
        0 <= k2 < b.occupied().len(),
        b.occupied()[k1].0 == b.occupied()[k2].0,
    ensures
        k1 == k2,
{
    lemma_occupied(b, b.size() as int);
    if k1 < k2 {
        assert(b.index_spec(b.occupied()[k1].0) < b.index_spec(b.occupied()[k2].0));
    } else if k2 < k1 {
        assert(b.index_spec(b.occupied()[k2].0) < b.index_spec(b.occupied()[k1].0));
    }
}

/// There are never more non-empty cells than positions scanned.
pub proof fn lemma_occupied_len(b: Board, n: int)
    requires
        0 <= n,
    ensures
        b.occupied_upto(n).len() <= n,
    decreases n,
{
    if n > 0 {
        lemma_occupied_len(b, n - 1);
    }
}

} // verus!
