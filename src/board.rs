//! The Hex board: cells, whose turn it is, and per colour a disjoint-set
//! forest that tracks which stones and edges are joined.
use vstd::prelude::*;
use bit_vec::BitVec;
use union_find::{QuickUnionUf, UnionBySize};
use crate::coord::{Color, Move, Pos, color_of_flag, decimal_bytes};
use crate::connect::{connected, lemma_last_step, lemma_path_join, lemma_single_link, linked, represents, no_links, lemma_fresh, lemma_same_links, lemma_union, with_link};
use crate::outside::{all_ascii, ascii_chars, string_from_ascii, bits_of, uf_roots, bits_new, bits_get, bits_set, bits_clone, uf_new, uf_find, uf_union, uf_clone};

verus! {

pub open spec fn in_board(w: int, h: int, x: int, y: int) -> bool {
    0 <= x < w && 0 <= y < h
}

/// What stands at `(x, y)`: the cell's stone on the board; off the board the
/// colour of the edge, White beside the columns and Black beyond the rows,
/// and nothing at the four corners.
pub open spec fn stone(cells: Seq<Option<Color>>, w: int, h: int, x: int, y: int) -> Option<Color> {
    if in_board(w, h, x, y) {
        cells[y * w + x]
    } else if (x < 0 || x >= w) && 0 <= y < h {
        Some(Color::White)
    } else if (y < 0 || y >= h) && 0 <= x < w {
        Some(Color::Black)
    } else {
        None
    }
}

/// The forest node of `(x, y)`: its cell on the board, the first edge node
/// just before the board, the second just past it, and none further out.
pub open spec fn group_node(w: int, h: int, x: int, y: int) -> int {
    if in_board(w, h, x, y) {
        y * w + x
    } else if x == -1 || y == -1 {
        w * h
    } else if x == w || y == h {
        w * h + 1
    } else {
        -1
    }
}

/// The neighbour of `(x, y)` one step along `(dx, dy)` is of colour `c` and
/// has forest node `v`.
pub open spec fn step_link(
    cells: Seq<Option<Color>>,
    w: int,
    h: int,
    c: Color,
    x: int,
    y: int,
    dx: int,
    dy: int,
    v: int,
) -> bool {
    stone(cells, w, h, x + dx, y + dy) == Some(c) && group_node(w, h, x + dx, y + dy) == v
}

/// The stone at `(x, y)` is of colour `c` and one of its six hex neighbours,
/// of the same colour, has node `v`.
pub open spec fn cell_link(cells: Seq<Option<Color>>, w: int, h: int, c: Color, x: int, y: int, v: int) -> bool {
    &&& stone(cells, w, h, x, y) == Some(c)
    &&& {
        ||| step_link(cells, w, h, c, x, y, -1, 0, v)
        ||| step_link(cells, w, h, c, x, y, 0, -1, v)
        ||| step_link(cells, w, h, c, x, y, -1, 1, v)
        ||| step_link(cells, w, h, c, x, y, 0, 1, v)
        ||| step_link(cells, w, h, c, x, y, 1, 0, v)
        ||| step_link(cells, w, h, c, x, y, 1, -1, v)
    }
}

/// The links of colour `c` that start at the cells below index `k`.
pub open spec fn links_below(cells: Seq<Option<Color>>, w: int, h: int, c: Color, k: int) -> spec_fn(int, int) -> bool {
    |u: int, v: int| 0 <= u < k && cell_link(cells, w, h, c, u % w, u / w, v)
}

/// The same-colour adjacency of colour `c`: stones to neighbouring stones,
/// and edge stones to their edge node.
pub open spec fn board_links(cells: Seq<Option<Color>>, w: int, h: int, c: Color) -> spec_fn(int, int) -> bool {
    links_below(cells, w, h, c, w * h)
}

/// The two edges of colour `c` are joined by a chain of its stones.
pub open spec fn edges_joined(cells: Seq<Option<Color>>, w: int, h: int, c: Color) -> bool {
    connected(board_links(cells, w, h, c), w * h + 2, w * h, w * h + 1)
}

/// The winner read off the cells; White is asked first.
pub open spec fn winner_of(cells: Seq<Option<Color>>, w: int, h: int) -> Option<Color> {
    if edges_joined(cells, w, h, Color::White) {
        Some(Color::White)
    } else if edges_joined(cells, w, h, Color::Black) {
        Some(Color::Black)
    } else {
        None
    }
}

/// A Hex board of `dims.x` columns and `dims.y` rows.
pub struct Board {
    dims: Pos,
    colors: BitVec,
    empty_cells: BitVec,
    to_play: Color,
    black_groups: QuickUnionUf<UnionBySize>,
    white_groups: QuickUnionUf<UnionBySize>,
    last_move: Move,
    winner: Option<Color>,
}

impl Board {
    pub open spec fn width(&self) -> int {
        self.spec_dims().x as int
    }

    pub open spec fn height(&self) -> int {
        self.spec_dims().y as int
    }

    pub open spec fn area(&self) -> int {
        self.width() * self.height()
    }

    /// The cells in index order `y * width + x`: `None` where the empty bit is set.
    pub closed spec fn cells(&self) -> Seq<Option<Color>> {
        Seq::new(
            bits_of(self.empty_cells).len(),
            |i: int|
                if bits_of(self.empty_cells)[i] {
                    None
                } else {
                    Some(color_of_flag(bits_of(self.colors)[i]))
                },
        )
    }

    /// What `find` answers in the forest of colour `c`.
    pub closed spec fn roots(&self, c: Color) -> Seq<int> {
        match c {
            Color::Black => uf_roots(self.black_groups),
            Color::White => uf_roots(self.white_groups),
        }
    }

    pub closed spec fn spec_to_play(&self) -> Color {
        self.to_play
    }

    pub closed spec fn spec_last_move(&self) -> Move {
        self.last_move
    }

    pub closed spec fn spec_winner(&self) -> Option<Color> {
        self.winner
    }

    pub closed spec fn spec_dims(&self) -> Pos {
        self.dims
    }

    /// Sizes agree: one colour bit and one empty bit per cell, and two more
    /// forest nodes than cells.
    pub closed spec fn sized(&self) -> bool {
        &&& self.dims.x >= 0
        &&& self.dims.y >= 0
        &&& bits_of(self.empty_cells).len() == self.area()
        &&& bits_of(self.colors).len() == self.area()
        &&& uf_roots(self.black_groups).len() == self.area() + 2
        &&& uf_roots(self.white_groups).len() == self.area() + 2
    }

    /// The board's invariant: sizes agree, each forest's sets are the
    /// components of its colour's adjacency, and the cached winner is the one
    /// the cells show.
    pub closed spec fn wf(&self) -> bool {
        &&& self.sized()
        &&& represents(
            self.roots(Color::Black),
            self.area() + 2,
            board_links(self.cells(), self.width(), self.height(), Color::Black),
        )
        &&& represents(
            self.roots(Color::White),
            self.area() + 2,
            board_links(self.cells(), self.width(), self.height(), Color::White),
        )
        &&& self.winner == winner_of(self.cells(), self.width(), self.height())
    }
}

/// Cell indices of positions on the board lie below the area, and give the
/// position back by division and remainder.
pub proof fn lemma_index(w: int, h: int, x: int, y: int)
    requires
        0 <= x < w,
        0 <= y < h,
    ensures
        0 <= y * w + x < w * h,
        (y * w + x) % w == x,
        (y * w + x) / w == y,
{
    assert(0 <= y * w + x < w * h) by (nonlinear_arith)
        requires
            0 <= x < w,
            0 <= y < h,
    ;
    vstd::arithmetic::div_mod::lemma_fundamental_div_mod_converse(y * w + x, w, y, x);
}

proof fn lemma_decode(w: int, h: int, u: int)
    requires
        0 <= w,
        0 <= h,
        0 <= u < w * h,
    ensures
        w > 0,
        in_board(w, h, u % w, u / w),
        (u / w) * w + u % w == u,
{
    assert(w > 0) by (nonlinear_arith)
        requires
            0 <= w,
            0 <= u < w * h,
    ;
    vstd::arithmetic::div_mod::lemma_fundamental_div_mod(u, w);
    let q = u / w;
    let r = u % w;
    assert(0 <= r < w);
    assert(q * w + r == u) by (nonlinear_arith)
        requires
            u == w * q + r,
    ;
    assert(0 <= q < h) by (nonlinear_arith)
        requires
            u == w * q + r,
            0 <= r < w,
            0 <= u < w * h,
            w > 0,
    ;
}

/// Every link of a board starts at a stone of its colour.
proof fn lemma_empty_board_links(cells: Seq<Option<Color>>, w: int, h: int, c: Color)
    requires
        0 <= w,
        0 <= h,
        cells.len() == w * h,
        forall|i: int| 0 <= i < cells.len() ==> #[trigger] cells[i] is None,
    ensures
        forall|u: int, v: int| #[trigger] linked(board_links(cells, w, h, c), u, v) == linked(no_links(), u, v),
{
    assert forall|u: int, v: int| #[trigger] board_links(cells, w, h, c)(u, v) == false by {
        if 0 <= u < w * h {
            lemma_decode(w, h, u);
            assert(cells[(u / w) * w + u % w] is None);
        }
    }
}

/// One of the six hex directions.
pub open spec fn hex_dir(dx: int, dy: int) -> bool {
    ||| (dx == -1 && dy == 0)
    ||| (dx == 0 && dy == -1)
    ||| (dx == -1 && dy == 1)
    ||| (dx == 0 && dy == 1)
    ||| (dx == 1 && dy == 0)
    ||| (dx == 1 && dy == -1)
}

/// Writing one cell changes what stands at that cell only.
proof fn lemma_stone_frame(
    old_cells: Seq<Option<Color>>,
    new_cells: Seq<Option<Color>>,
    w: int,
    h: int,
    px: int,
    py: int,
    x: int,
    y: int,
)
    requires
        in_board(w, h, px, py),
        old_cells.len() == w * h,
        new_cells == old_cells.update(py * w + px, new_cells[py * w + px]),
        x != px || y != py,
    ensures
        stone(new_cells, w, h, x, y) == stone(old_cells, w, h, x, y),
{
    lemma_index(w, h, px, py);
    if in_board(w, h, x, y) {
        lemma_index(w, h, x, y);
    }
}

/// A link from a cell to a neighbouring cell is matched by the link back.
proof fn lemma_step_back(cells: Seq<Option<Color>>, w: int, h: int, c: Color, x: int, y: int, dx: int, dy: int)
    requires
        in_board(w, h, x, y),
        in_board(w, h, x + dx, y + dy),
        hex_dir(dx, dy),
        stone(cells, w, h, x, y) == Some(c),
        stone(cells, w, h, x + dx, y + dy) == Some(c),
    ensures
        cell_link(cells, w, h, c, x + dx, y + dy, y * w + x),
{
    assert(step_link(cells, w, h, c, x + dx, y + dy, -dx, -dy, y * w + x));
}

/// The links of colour `d` after a stone of colour `c` is put on an empty
/// cell, or on a cell of its own colour, are those from before together
/// with the links that now start at that cell.
proof fn lemma_place(
    old_cells: Seq<Option<Color>>,
    new_cells: Seq<Option<Color>>,
    w: int,
    h: int,
    px: int,
    py: int,
    c: Color,
    d: Color,
)
    requires
        0 <= w,
        0 <= h,
        in_board(w, h, px, py),
        old_cells.len() == w * h,
        new_cells == old_cells.update(py * w + px, Some(c)),
        old_cells[py * w + px] is None || old_cells[py * w + px] == Some(c),
    ensures
        forall|u: int, v: int|
            #[trigger] linked(board_links(new_cells, w, h, d), u, v) == linked(
                at_cell(board_links(old_cells, w, h, d), new_cells, w, h, d, px, py),
                u,
                v,
            ),
{
    let p = py * w + px;
    let lo = board_links(old_cells, w, h, d);
    let ln = board_links(new_cells, w, h, d);
    let r = at_cell(lo, new_cells, w, h, d, px, py);
    lemma_index(w, h, px, py);
    assert forall|u: int, v: int| #[trigger] ln(u, v) implies r(u, v) || r(v, u) by {
        lemma_decode(w, h, u);
        let ux = u % w;
        let uy = u / w;
        if u != p {
            if ux == px && uy == py {
                assert(false);
            }
            lemma_stone_frame(old_cells, new_cells, w, h, px, py, ux, uy);
            if step_link(new_cells, w, h, d, ux, uy, -1, 0, v) {
                lemma_step_new(old_cells, new_cells, w, h, px, py, c, d, ux, uy, -1, 0, v);
            } else if step_link(new_cells, w, h, d, ux, uy, 0, -1, v) {
                lemma_step_new(old_cells, new_cells, w, h, px, py, c, d, ux, uy, 0, -1, v);
            } else if step_link(new_cells, w, h, d, ux, uy, -1, 1, v) {
                lemma_step_new(old_cells, new_cells, w, h, px, py, c, d, ux, uy, -1, 1, v);
            } else if step_link(new_cells, w, h, d, ux, uy, 0, 1, v) {
                lemma_step_new(old_cells, new_cells, w, h, px, py, c, d, ux, uy, 0, 1, v);
            } else if step_link(new_cells, w, h, d, ux, uy, 1, 0, v) {
                lemma_step_new(old_cells, new_cells, w, h, px, py, c, d, ux, uy, 1, 0, v);
            } else {
                lemma_step_new(old_cells, new_cells, w, h, px, py, c, d, ux, uy, 1, -1, v);
            }
        }
    }
    assert forall|u: int, v: int| #[trigger] r(u, v) implies ln(u, v) by {
        if lo(u, v) {
            lemma_decode(w, h, u);
            let ux = u % w;
            let uy = u / w;
            if u == p {
                assert(ux == px && uy == py);
            } else {
                if ux == px && uy == py {
                    assert(false);
                }
                lemma_stone_frame(old_cells, new_cells, w, h, px, py, ux, uy);
            }
            lemma_step_old(old_cells, new_cells, w, h, px, py, c, d, ux, uy, -1, 0, v);
            lemma_step_old(old_cells, new_cells, w, h, px, py, c, d, ux, uy, 0, -1, v);
            lemma_step_old(old_cells, new_cells, w, h, px, py, c, d, ux, uy, -1, 1, v);
            lemma_step_old(old_cells, new_cells, w, h, px, py, c, d, ux, uy, 0, 1, v);
            lemma_step_old(old_cells, new_cells, w, h, px, py, c, d, ux, uy, 1, 0, v);
            lemma_step_old(old_cells, new_cells, w, h, px, py, c, d, ux, uy, 1, -1, v);
        } else {
            assert(p % w == px && p / w == py);
        }
    }
}

/// A step that holds after the write, from a cell other than the written
/// one, held before or leads to the written cell, which links back.
proof fn lemma_step_new(
    old_cells: Seq<Option<Color>>,
    new_cells: Seq<Option<Color>>,
    w: int,
    h: int,
    px: int,
    py: int,
    c: Color,
    d: Color,
    x: int,
    y: int,
    dx: int,
    dy: int,
    v: int,
)
    requires
        0 <= w,
        0 <= h,
        in_board(w, h, px, py),
        in_board(w, h, x, y),
        x != px || y != py,
        hex_dir(dx, dy),
        old_cells.len() == w * h,
        new_cells == old_cells.update(py * w + px, Some(c)),
        stone(new_cells, w, h, x, y) == Some(d),
        step_link(new_cells, w, h, d, x, y, dx, dy, v),
    ensures
        step_link(old_cells, w, h, d, x, y, dx, dy, v) || (v == py * w + px && cell_link(
            new_cells,
            w,
            h,
            d,
            px,
            py,
            y * w + x,
        )),
{
    lemma_index(w, h, px, py);
    if x + dx == px && y + dy == py {
        lemma_step_back(new_cells, w, h, d, x, y, dx, dy);
    } else {
        lemma_stone_frame(old_cells, new_cells, w, h, px, py, x + dx, y + dy);
    }
}

/// A step that held before the write still holds after it.
proof fn lemma_step_old(
    old_cells: Seq<Option<Color>>,
    new_cells: Seq<Option<Color>>,
    w: int,
    h: int,
    px: int,
    py: int,
    c: Color,
    d: Color,
    x: int,
    y: int,
    dx: int,
    dy: int,
    v: int,
)
    requires
        0 <= w,
        0 <= h,
        in_board(w, h, px, py),
        old_cells.len() == w * h,
        new_cells == old_cells.update(py * w + px, Some(c)),
        old_cells[py * w + px] is None || old_cells[py * w + px] == Some(c),
        dx != 0 || dy != 0,
    ensures
        step_link(old_cells, w, h, d, x, y, dx, dy, v) ==> step_link(new_cells, w, h, d, x, y, dx, dy, v),
{
    lemma_index(w, h, px, py);
    if x + dx != px || y + dy != py {
        lemma_stone_frame(old_cells, new_cells, w, h, px, py, x + dx, y + dy);
    }
}

/// The links of `l` together with those of colour `c` that start at the
/// cell `(x, y)`.
pub open spec fn at_cell(
    l: spec_fn(int, int) -> bool,
    cells: Seq<Option<Color>>,
    w: int,
    h: int,
    c: Color,
    x: int,
    y: int,
) -> spec_fn(int, int) -> bool {
    |u: int, v: int| l(u, v) || (u == y * w + x && cell_link(cells, w, h, c, x, y, v))
}

/// The links of `l` together with the step from `(x, y)` along `(dx, dy)`.
pub open spec fn at_step(
    l: spec_fn(int, int) -> bool,
    cells: Seq<Option<Color>>,
    w: int,
    h: int,
    c: Color,
    x: int,
    y: int,
    dx: int,
    dy: int,
) -> spec_fn(int, int) -> bool {
    |u: int, v: int| l(u, v) || (u == y * w + x && step_link(cells, w, h, c, x, y, dx, dy, v))
}

impl Board {
    /// An empty board of `dims.x` columns and `dims.y` rows, Black to play.
    pub fn new(dims: Pos) -> (r: Board)
        requires
            dims.x >= 0,
            dims.y >= 0,
        ensures
            r.wf(),
            r.spec_dims() == dims,
            r.cells() == Seq::new((dims.x * dims.y) as nat, |i: int| None::<Color>),
            r.spec_to_play() == Color::Black,
            r.spec_last_move() == Move::Pass,
            r.spec_winner() == None::<Color>,
    {
        let area = dims.area();
        let r = Board {
            dims,
            colors: bits_new(area, false),
            empty_cells: bits_new(area, true),
            to_play: Color::Black,
            black_groups: uf_new(area + 2),
            white_groups: uf_new(area + 2),
            last_move: Move::Pass,
            winner: None,
        };
        proof {
            let w = r.width();
            let h = r.height();
            let n = r.area() + 2;
            assert(r.cells() =~= Seq::new((dims.x * dims.y) as nat, |i: int| None::<Color>));
            lemma_fresh(r.roots(Color::Black), n);
            lemma_fresh(r.roots(Color::White), n);
            lemma_empty_board_links(r.cells(), w, h, Color::Black);
            lemma_empty_board_links(r.cells(), w, h, Color::White);
            lemma_same_links(r.roots(Color::Black), n, no_links(), board_links(r.cells(), w, h, Color::Black));
            lemma_same_links(r.roots(Color::White), n, no_links(), board_links(r.cells(), w, h, Color::White));
            assert(r.roots(Color::Black)[w * h] != r.roots(Color::Black)[w * h + 1]);
            assert(r.roots(Color::White)[w * h] != r.roots(Color::White)[w * h + 1]);
        }
        r
    }

    /// Columns and rows.
    pub fn dimensions(&self) -> (r: Pos)
        ensures
            r == self.spec_dims(),
    {
        self.dims
    }

    pub fn on_board(&self, pos: Pos) -> (r: bool)
        ensures
            r == in_board(self.width(), self.height(), pos.x as int, pos.y as int),
    {
        pos.x >= 0 && pos.y >= 0 && pos.x < self.dims.x && pos.y < self.dims.y
    }

    /// The cell index of an on-board position, `y * width + x`.
    fn idx_of(&self, pos: Pos) -> (r: Option<usize>)
        requires
            self.sized(),
        ensures
            r is Some <==> in_board(self.width(), self.height(), pos.x as int, pos.y as int),
            r matches Some(i) ==> i as int == pos.y * self.width() + pos.x && i < self.area(),
    {
        if self.on_board(pos) {
            proof {
                lemma_index(self.width(), self.height(), pos.x as int, pos.y as int);
                assert(self.area() <= 127 * 127) by (nonlinear_arith)
                    requires
                        0 <= self.width() <= 127,
                        0 <= self.height() <= 127,
                        self.area() == self.width() * self.height(),
                ;
                assert(0 <= pos.y * self.width() <= pos.y * self.width() + pos.x);
            }
            Some(pos.y as usize * self.dims.x as usize + pos.x as usize)
        } else {
            None
        }
    }

    /// The stone on a cell, or off the board the colour of the edge there.
    pub fn get(&self, pos: Pos) -> (r: Option<Color>)
        requires
            self.wf(),
        ensures
            r == stone(self.cells(), self.width(), self.height(), pos.x as int, pos.y as int),
    {
        self.look(pos)
    }

    fn look(&self, pos: Pos) -> (r: Option<Color>)
        requires
            self.sized(),
        ensures
            r == stone(self.cells(), self.width(), self.height(), pos.x as int, pos.y as int),
    {
        match self.idx_of(pos) {
            Some(idx) => {
                assert(self.cells()[idx as int] == if bits_of(self.empty_cells)[idx as int] {
                    None
                } else {
                    Some(color_of_flag(bits_of(self.colors)[idx as int]))
                });
                if bits_get(&self.empty_cells, idx) {
                    None
                } else {
                    Some(Color::from(bits_get(&self.colors, idx)))
                }
            },
            None => {
                if (pos.x < 0 || pos.x >= self.dims.x) && pos.y >= 0 && pos.y < self.dims.y {
                    Some(Color::White)
                } else if (pos.y < 0 || pos.y >= self.dims.y) && pos.x >= 0 && pos.x < self.dims.x {
                    Some(Color::Black)
                } else {
                    None
                }
            },
        }
    }

    /// Whether nothing stands at the position (a corner off the board counts).
    pub fn is_empty(&self, pos: Pos) -> (r: bool)
        requires
            self.wf(),
        ensures
            r == (stone(self.cells(), self.width(), self.height(), pos.x as int, pos.y as int) is None),
    {
        self.get(pos).is_none()
    }

    /// The forest node of a position one step off the board at most.
    fn group_idx(&self, pos: Pos) -> (r: Option<usize>)
        requires
            self.sized(),
        ensures
            r matches Some(i) ==> i == group_node(self.width(), self.height(), pos.x as int, pos.y as int)
                && i < self.area() + 2,
            r is None ==> group_node(self.width(), self.height(), pos.x as int, pos.y as int) == -1,
    {
        match self.idx_of(pos) {
            Some(idx) => Some(idx),
            None => {
                if pos.x == -1 || pos.y == -1 {
                    Some(self.edge_idx(0))
                } else if pos.x == self.dims.x || pos.y == self.dims.y {
                    Some(self.edge_idx(1))
                } else {
                    None
                }
            },
        }
    }

    /// The node of edge 0 or edge 1, just past the cells.
    fn edge_idx(&self, edge: usize) -> (r: usize)
        requires
            self.sized(),
            edge < 2,
        ensures
            r == self.area() + edge,
    {
        self.dims.area() + edge
    }

    pub fn winner(&self) -> (r: Option<Color>)
        ensures
            r == self.spec_winner(),
    {
        self.winner
    }

    pub fn to_play(&self) -> (r: Color)
        ensures
            r == self.spec_to_play(),
    {
        self.to_play
    }

    pub fn set_to_play(&mut self, color: Color)
        requires
            old(self).wf(),
        ensures
            final(self).wf(),
            final(self).spec_to_play() == color,
            final(self).cells() == old(self).cells(),
            final(self).spec_dims() == old(self).spec_dims(),
            final(self).spec_last_move() == old(self).spec_last_move(),
            final(self).spec_winner() == old(self).spec_winner(),
    {
        self.to_play = color;
    }

    pub fn last_move(&self) -> (r: Move)
        ensures
            r == self.spec_last_move(),
    {
        self.last_move
    }
}

impl Board {
    /// Everything but the forest of colour `c` is as in `other`.
    closed spec fn same_but_groups(&self, other: &Board, c: Color) -> bool {
        &&& self.dims == other.dims
        &&& self.colors == other.colors
        &&& self.empty_cells == other.empty_cells
        &&& self.to_play == other.to_play
        &&& self.last_move == other.last_move
        &&& self.winner == other.winner
        &&& c != Color::Black ==> self.black_groups == other.black_groups
        &&& c != Color::White ==> self.white_groups == other.white_groups
        &&& self.roots(c).len() == other.roots(c).len()
    }

    /// Joins the stone at `pos` with its neighbour along `(dx, dy)` in the
    /// forest of colour `c` when that neighbour is of colour `c`.
    fn join_direction(&mut self, pos: Pos, c: Color, dx: i8, dy: i8, Ghost(l): Ghost<spec_fn(int, int) -> bool>)
        requires
            old(self).sized(),
            in_board(old(self).width(), old(self).height(), pos.x as int, pos.y as int),
            hex_dir(dx as int, dy as int),
            represents(old(self).roots(c), old(self).area() + 2, l),
        ensures
            final(self).sized(),
            final(self).same_but_groups(old(self), c),
            represents(
                final(self).roots(c),
                old(self).area() + 2,
                at_step(l, old(self).cells(), old(self).width(), old(self).height(), c, pos.x as int, pos.y as int, dx as int, dy as int),
            ),
    {
        let ghost w = self.width();
        let ghost h = self.height();
        let ghost n = self.area() + 2;
        let ghost target = at_step(l, self.cells(), w, h, c, pos.x as int, pos.y as int, dx as int, dy as int);
        let q = pos.offset(Pos { x: dx, y: dy });
        let matches = match self.look(q) {
            Some(d) => d == c,
            None => false,
        };
        if matches {
            let a = self.idx_of(pos).unwrap();
            let b = self.group_idx(q).unwrap();
            match c {
                Color::Black => {
                    uf_union(&mut self.black_groups, a, b);
                },
                Color::White => {
                    uf_union(&mut self.white_groups, a, b);
                },
            }
            proof {
                lemma_union(old(self).roots(c), self.roots(c), n, l, a as int, b as int);
                lemma_same_links(self.roots(c), n, with_link(l, a as int, b as int), target);
            }
        } else {
            proof {
                lemma_same_links(self.roots(c), n, l, target);
            }
        }
    }

    /// Everything but the two forests is as in `other`.
    closed spec fn same_but_forests(&self, other: &Board) -> bool {
        &&& self.dims == other.dims
        &&& self.colors == other.colors
        &&& self.empty_cells == other.empty_cells
        &&& self.to_play == other.to_play
        &&& self.last_move == other.last_move
        &&& self.winner == other.winner
    }

    /// Joins the stone at `pos`, if any, with each neighbour of its colour:
    /// a stone on the board, or the edge node where the neighbour is off the
    /// board on the stone's own edge.
    fn update_groups(
        &mut self,
        pos: Pos,
        Ghost(lb): Ghost<spec_fn(int, int) -> bool>,
        Ghost(lw): Ghost<spec_fn(int, int) -> bool>,
    )
        requires
            old(self).sized(),
            in_board(old(self).width(), old(self).height(), pos.x as int, pos.y as int),
            represents(old(self).roots(Color::Black), old(self).area() + 2, lb),
            represents(old(self).roots(Color::White), old(self).area() + 2, lw),
        ensures
            final(self).sized(),
            final(self).same_but_forests(old(self)),
            represents(
                final(self).roots(Color::Black),
                old(self).area() + 2,
                at_cell(lb, old(self).cells(), old(self).width(), old(self).height(), Color::Black, pos.x as int, pos.y as int),
            ),
            represents(
                final(self).roots(Color::White),
                old(self).area() + 2,
                at_cell(lw, old(self).cells(), old(self).width(), old(self).height(), Color::White, pos.x as int, pos.y as int),
            ),
    {
        let ghost w = self.width();
        let ghost h = self.height();
        let ghost n = self.area() + 2;
        let ghost cells = self.cells();
        let ghost x = pos.x as int;
        let ghost y = pos.y as int;
        match self.look(pos) {
            None => {
                proof {
                    lemma_same_links(self.roots(Color::Black), n, lb, at_cell(lb, cells, w, h, Color::Black, x, y));
                    lemma_same_links(self.roots(Color::White), n, lw, at_cell(lw, cells, w, h, Color::White, x, y));
                }
            },
            Some(c) => {
                let ghost l0 = if c == Color::Black { lb } else { lw };
                let ghost lo = if c == Color::Black { lw } else { lb };
                let ghost other = if c == Color::Black { Color::White } else { Color::Black };
                let ghost l1 = at_step(l0, cells, w, h, c, x, y, -1, 0);
                let ghost l2 = at_step(l1, cells, w, h, c, x, y, 0, -1);
                let ghost l3 = at_step(l2, cells, w, h, c, x, y, -1, 1);
                let ghost l4 = at_step(l3, cells, w, h, c, x, y, 0, 1);
                let ghost l5 = at_step(l4, cells, w, h, c, x, y, 1, 0);
                let ghost l6 = at_step(l5, cells, w, h, c, x, y, 1, -1);
                let ghost start = *self;
                self.join_direction(pos, c, -1, 0, Ghost(l0));
                self.join_direction(pos, c, 0, -1, Ghost(l1));
                self.join_direction(pos, c, -1, 1, Ghost(l2));
                self.join_direction(pos, c, 0, 1, Ghost(l3));
                self.join_direction(pos, c, 1, 0, Ghost(l4));
                self.join_direction(pos, c, 1, -1, Ghost(l5));
                proof {
                    assert(self.roots(other) == start.roots(other));
                    lemma_same_links(self.roots(c), n, l6, at_cell(l0, cells, w, h, c, x, y));
                    lemma_same_links(self.roots(other), n, lo, at_cell(lo, cells, w, h, other, x, y));
                }
            },
        }
    }

    /// Recomputes the cached winner from the forests: a colour wins when its
    /// two edge nodes share a root; White is asked first.
    fn update_winner(&mut self)
        requires
            old(self).sized(),
            represents(
                old(self).roots(Color::Black),
                old(self).area() + 2,
                board_links(old(self).cells(), old(self).width(), old(self).height(), Color::Black),
            ),
            represents(
                old(self).roots(Color::White),
                old(self).area() + 2,
                board_links(old(self).cells(), old(self).width(), old(self).height(), Color::White),
            ),
        ensures
            final(self).wf(),
            final(self).dims == old(self).dims,
            final(self).cells() == old(self).cells(),
            final(self).to_play == old(self).to_play,
            final(self).last_move == old(self).last_move,
    {
        let edge0 = self.edge_idx(0);
        let edge1 = self.edge_idx(1);
        let b0 = uf_find(&mut self.black_groups, edge0);
        let b1 = uf_find(&mut self.black_groups, edge1);
        let w0 = uf_find(&mut self.white_groups, edge0);
        let w1 = uf_find(&mut self.white_groups, edge1);
        self.winner = None;
        if b0 == b1 {
            self.winner = Some(Color::Black);
        }
        if w0 == w1 {
            self.winner = Some(Color::White);
        }
    }

    /// Rebuilds both forests from the stones on the board.
    fn rebuild_groups(&mut self)
        requires
            old(self).sized(),
        ensures
            final(self).wf(),
            final(self).dims == old(self).dims,
            final(self).cells() == old(self).cells(),
            final(self).to_play == old(self).to_play,
            final(self).last_move == old(self).last_move,
    {
        let ghost w = self.width();
        let ghost h = self.height();
        let ghost cells = self.cells();
        let ghost n = self.area() + 2;
        let area = self.dims.area();
        self.black_groups = uf_new(area + 2);
        self.white_groups = uf_new(area + 2);
        proof {
            lemma_fresh(self.roots(Color::Black), n);
            lemma_fresh(self.roots(Color::White), n);
            lemma_same_links(self.roots(Color::Black), n, no_links(), links_below(cells, w, h, Color::Black, 0));
            lemma_same_links(self.roots(Color::White), n, no_links(), links_below(cells, w, h, Color::White, 0));
        }
        let mut k: usize = 0;
        let mut x: i8 = 0;
        let mut y: i8 = 0;
        while k < area
            invariant
                self.sized(),
                self.dims == old(self).dims,
                self.cells() == cells,
                self.to_play == old(self).to_play,
                self.last_move == old(self).last_move,
                w == self.width(),
                h == self.height(),
                n == self.area() + 2,
                area == self.area(),
                k <= area,
                k == y * w + x,
                0 <= x,
                0 <= y,
                w > 0 ==> x < w,
                represents(self.roots(Color::Black), n, links_below(cells, w, h, Color::Black, k as int)),
                represents(self.roots(Color::White), n, links_below(cells, w, h, Color::White, k as int)),
            decreases area - k,
        {
            proof {
                lemma_decode(w, h, k as int);
                vstd::arithmetic::div_mod::lemma_fundamental_div_mod_converse(k as int, w, y as int, x as int);
            }
            let ghost lb = links_below(cells, w, h, Color::Black, k as int);
            let ghost lw = links_below(cells, w, h, Color::White, k as int);
            self.update_groups(Pos { x, y }, Ghost(lb), Ghost(lw));
            proof {
                lemma_same_links(
                    self.roots(Color::Black),
                    n,
                    at_cell(lb, cells, w, h, Color::Black, x as int, y as int),
                    links_below(cells, w, h, Color::Black, k + 1),
                );
                lemma_same_links(
                    self.roots(Color::White),
                    n,
                    at_cell(lw, cells, w, h, Color::White, x as int, y as int),
                    links_below(cells, w, h, Color::White, k + 1),
                );
            }
            k = k + 1;
            if x + 1 == self.dims.x {
                assert((y + 1) * w == y * w + w) by (nonlinear_arith);
                x = 0;
                y = y + 1;
            } else {
                x = x + 1;
            }
        }
        self.update_winner();
    }

    /// Writes a cell unconditionally and brings the forests and the winner
    /// up to date; returns whether the position is on the board.
    pub fn set(&mut self, pos: Pos, val: Option<Color>) -> (r: bool)
        requires
            old(self).wf(),
        ensures
            final(self).wf(),
            r == in_board(old(self).width(), old(self).height(), pos.x as int, pos.y as int),
            r ==> final(self).cells() == old(self).cells().update(cell_index(old(self).width(), pos), val),
            !r ==> final(self).cells() == old(self).cells(),
            final(self).spec_dims() == old(self).spec_dims(),
            final(self).spec_to_play() == old(self).spec_to_play(),
            final(self).spec_last_move() == old(self).spec_last_move(),
    {
        let idx = match self.idx_of(pos) {
            Some(i) => i,
            None => {
                return false;
            },
        };
        let ghost old_cells = self.cells();
        let ghost w = self.width();
        let ghost h = self.height();
        let ghost n = self.area() + 2;
        match val {
            Some(color) => {
                let prev = self.look(pos);
                bits_set(&mut self.empty_cells, idx, false);
                bits_set(&mut self.colors, idx, bool::from(color));
                assert(self.cells() =~= old_cells.update(idx as int, Some(color)));
                let fresh = match prev {
                    Some(d) => d == color,
                    None => true,
                };
                if fresh {
                    let ghost new_cells = self.cells();
                    let ghost lb = board_links(old_cells, w, h, Color::Black);
                    let ghost lw = board_links(old_cells, w, h, Color::White);
                    self.update_groups(pos, Ghost(lb), Ghost(lw));
                    proof {
                        lemma_place(old_cells, new_cells, w, h, pos.x as int, pos.y as int, color, Color::Black);
                        lemma_place(old_cells, new_cells, w, h, pos.x as int, pos.y as int, color, Color::White);
                        lemma_same_links(
                            self.roots(Color::Black),
                            n,
                            at_cell(lb, new_cells, w, h, Color::Black, pos.x as int, pos.y as int),
                            board_links(new_cells, w, h, Color::Black),
                        );
                        lemma_same_links(
                            self.roots(Color::White),
                            n,
                            at_cell(lw, new_cells, w, h, Color::White, pos.x as int, pos.y as int),
                            board_links(new_cells, w, h, Color::White),
                        );
                    }
                    self.update_winner();
                } else {
                    self.rebuild_groups();
                }
            },
            None => {
                bits_set(&mut self.empty_cells, idx, true);
                assert(self.cells() =~= old_cells.update(idx as int, None));
                self.rebuild_groups();
            },
        }
        true
    }

    /// Empties a cell; the forests are rebuilt from the remaining stones.
    pub fn clear_cell(&mut self, pos: Pos)
        requires
            old(self).wf(),
        ensures
            final(self).wf(),
            in_board(old(self).width(), old(self).height(), pos.x as int, pos.y as int) ==> final(self).cells()
                == old(self).cells().update(cell_index(old(self).width(), pos), None),
            !in_board(old(self).width(), old(self).height(), pos.x as int, pos.y as int) ==> final(self).cells()
                == old(self).cells(),
            final(self).spec_dims() == old(self).spec_dims(),
            final(self).spec_to_play() == old(self).spec_to_play(),
            final(self).spec_last_move() == old(self).spec_last_move(),
    {
        self.set(pos, None);
    }

    /// Plays a move. A pass or a resignation is always accepted and only
    /// recorded as the last move. A stone is refused off the board or on an
    /// occupied cell, and the board is then left as it was; otherwise it is
    /// written and the other colour is to play.
    pub fn play(&mut self, m: Move) -> (r: bool)
        requires
            old(self).wf(),
        ensures
            final(self).wf(),
            final(self).spec_dims() == old(self).spec_dims(),
            r == legal(old(self).cells(), old(self).width(), old(self).height(), m),
            r ==> final(self).cells() == after(old(self).cells(), old(self).width(), m),
            r ==> final(self).spec_last_move() == m,
            r ==> final(self).spec_to_play() == match m {
                Move::Play { color, .. } => crate::coord::inverted(color),
                _ => old(self).spec_to_play(),
            },
            !r ==> final(self).cells() == old(self).cells(),
            !r ==> final(self).spec_to_play() == old(self).spec_to_play(),
            !r ==> final(self).spec_last_move() == old(self).spec_last_move(),
    {
        match m {
            Move::Resign | Move::Pass => {
                self.last_move = m;
                true
            },
            Move::Play { color, pos } => {
                if !self.on_board(pos) || !self.is_empty(pos) {
                    false
                } else {
                    self.to_play = color.invert();
                    self.last_move = m;
                    self.set(pos, Some(color))
                }
            },
        }
    }
}

/// The cell index of a position on a board of width `w`.
pub open spec fn cell_index(w: int, pos: Pos) -> int {
    pos.y * w + pos.x
}

/// A move the board accepts: a pass, a resignation, or a stone on an empty
/// cell of the board.
pub open spec fn legal(cells: Seq<Option<Color>>, w: int, h: int, m: Move) -> bool {
    match m {
        Move::Play { pos, .. } => in_board(w, h, pos.x as int, pos.y as int) && cells[cell_index(w, pos)] is None,
        _ => true,
    }
}

/// The cells after a legal move.
pub open spec fn after(cells: Seq<Option<Color>>, w: int, m: Move) -> Seq<Option<Color>> {
    match m {
        Move::Play { color, pos } => cells.update(cell_index(w, pos), Some(color)),
        _ => cells,
    }
}

/// The position of cell index `i` on a board of width `w`.
pub open spec fn pos_of_index(w: int, i: int) -> Pos {
    Pos { x: (i % w) as i8, y: (i / w) as i8 }
}

/// The empty cells among the first `k`, in index order.
pub open spec fn empty_positions(cells: Seq<Option<Color>>, w: int, k: int) -> Seq<Pos>
    decreases k,
{
    if k <= 0 {
        Seq::empty()
    } else if cells[k - 1] is None {
        empty_positions(cells, w, k - 1).push(pos_of_index(w, k - 1))
    } else {
        empty_positions(cells, w, k - 1)
    }
}

/// The stones among the first `k` cells, as moves, in index order.
pub open spec fn stone_moves(cells: Seq<Option<Color>>, w: int, k: int) -> Seq<Move>
    decreases k,
{
    if k <= 0 {
        Seq::empty()
    } else {
        match cells[k - 1] {
            Some(c) => stone_moves(cells, w, k - 1).push(Move::Play { color: c, pos: pos_of_index(w, k - 1) }),
            None => stone_moves(cells, w, k - 1),
        }
    }
}

impl Clone for Board {
    fn clone(&self) -> (r: Board)
        ensures
            r.wf() == self.wf(),
            r.cells() == self.cells(),
            r.spec_dims() == self.spec_dims(),
            r.spec_to_play() == self.spec_to_play(),
            r.spec_last_move() == self.spec_last_move(),
            r.spec_winner() == self.spec_winner(),
    {
        Board {
            dims: self.dims,
            colors: bits_clone(&self.colors),
            empty_cells: bits_clone(&self.empty_cells),
            to_play: self.to_play,
            black_groups: uf_clone(&self.black_groups),
            white_groups: uf_clone(&self.white_groups),
            last_move: self.last_move,
            winner: self.winner,
        }
    }
}

impl Board {
    /// The empty cells, in index order.
    pub fn empty_cells(&self) -> (r: Vec<Pos>)
        requires
            self.wf(),
        ensures
            r@ == empty_positions(self.cells(), self.width(), self.area()),
    {
        let area = self.dims.area();
        let mut r: Vec<Pos> = Vec::new();
        let mut k: usize = 0;
        let mut x: i8 = 0;
        let mut y: i8 = 0;
        let ghost w = self.width();
        let ghost h = self.height();
        while k < area
            invariant
                self.sized(),
                w == self.width(),
                h == self.height(),
                area == self.area(),
                k <= area,
                k == y * w + x,
                0 <= x,
                0 <= y,
                w > 0 ==> x < w,
                r@ == empty_positions(self.cells(), w, k as int),
            decreases area - k,
        {
            proof {
                lemma_decode(w, h, k as int);
                vstd::arithmetic::div_mod::lemma_fundamental_div_mod_converse(k as int, w, y as int, x as int);
            }
            let pos = Pos { x, y };
            if self.look(pos).is_none() {
                r.push(pos);
            }
            k = k + 1;
            if x + 1 == self.dims.x {
                assert((y + 1) * w == y * w + w) by (nonlinear_arith);
                x = 0;
                y = y + 1;
            } else {
                x = x + 1;
            }
        }
        r
    }

    /// The stones on the board as moves, in index order.
    pub fn filled_cells(&self) -> (r: Vec<Move>)
        requires
            self.wf(),
        ensures
            r@ == stone_moves(self.cells(), self.width(), self.area()),
    {
        let area = self.dims.area();
        let mut r: Vec<Move> = Vec::new();
        let mut k: usize = 0;
        let mut x: i8 = 0;
        let mut y: i8 = 0;
        let ghost w = self.width();
        let ghost h = self.height();
        while k < area
            invariant
                self.sized(),
                w == self.width(),
                h == self.height(),
                area == self.area(),
                k <= area,
                k == y * w + x,
                0 <= x,
                0 <= y,
                w > 0 ==> x < w,
                r@ == stone_moves(self.cells(), w, k as int),
            decreases area - k,
        {
            proof {
                lemma_decode(w, h, k as int);
                vstd::arithmetic::div_mod::lemma_fundamental_div_mod_converse(k as int, w, y as int, x as int);
            }
            let pos = Pos { x, y };
            match self.look(pos) {
                Some(c) => {
                    r.push(Move::Play { color: c, pos });
                },
                None => {},
            }
            k = k + 1;
            if x + 1 == self.dims.x {
                assert((y + 1) * w == y * w + w) by (nonlinear_arith);
                x = 0;
                y = y + 1;
            } else {
                x = x + 1;
            }
        }
        r
    }
}

impl Board {
    /// The empty bit of cell `i`.
    pub closed spec fn empty_bit(&self, i: int) -> bool {
        bits_of(self.empty_cells)[i]
    }

    /// The colour bit of cell `i`, set for White.
    pub closed spec fn color_bit(&self, i: int) -> bool {
        bits_of(self.colors)[i]
    }

    /// The board's measures: its cells are `width * height`, from its
    /// dimensions.
    pub proof fn lemma_measures(&self)
        requires
            self.wf(),
        ensures
            self.width() == self.spec_dims().x,
            self.height() == self.spec_dims().y,
            self.width() >= 0,
            self.height() >= 0,
            self.area() == self.width() * self.height(),
            self.cells().len() == self.area(),
            self.roots(Color::Black).len() == self.area() + 2,
            self.roots(Color::White).len() == self.area() + 2,
    {
    }

    /// A cell is empty exactly when its empty bit is set; otherwise its
    /// colour bit gives the stone.
    pub proof fn lemma_empty_bit(&self, i: int)
        requires
            self.wf(),
            0 <= i < self.area(),
        ensures
            (self.cells()[i] is None) == self.empty_bit(i),
            !self.empty_bit(i) ==> self.cells()[i] == Some(color_of_flag(self.color_bit(i))),
    {
    }

    /// In the forest of each colour two nodes share a root exactly when a
    /// chain of that colour's stones joins them, through the six hex
    /// neighbours, where the first edge node stands for the row or column
    /// before the board and the second for the one after it.
    pub proof fn lemma_forest_is_chains(&self, c: Color, a: int, b: int)
        requires
            self.wf(),
            0 <= a < self.area() + 2,
            0 <= b < self.area() + 2,
        ensures
            (self.roots(c)[a] == self.roots(c)[b]) <==> connected(
                board_links(self.cells(), self.width(), self.height(), c),
                self.area() + 2,
                a,
                b,
            ),
    {
    }

    /// The cached winner is White when White's two edge nodes share a root,
    /// else Black when Black's do, else nobody.
    pub proof fn lemma_winner_rule(&self)
        requires
            self.wf(),
        ensures
            self.spec_winner() == winner_of(self.cells(), self.width(), self.height()),
            (self.spec_winner() == Some(Color::White)) <==> self.roots(Color::White)[self.area()]
                == self.roots(Color::White)[self.area() + 1],
            (self.spec_winner() == Some(Color::Black)) <==> (self.roots(Color::Black)[self.area()]
                == self.roots(Color::Black)[self.area() + 1] && self.roots(Color::White)[self.area()]
                != self.roots(Color::White)[self.area() + 1]),
            (self.spec_winner() is None) <==> (self.roots(Color::Black)[self.area()]
                != self.roots(Color::Black)[self.area() + 1] && self.roots(Color::White)[self.area()]
                != self.roots(Color::White)[self.area() + 1]),
    {
    }
}

/// Playing a stone and then emptying its cell gives back the cells and so
/// the winner that they show.
pub proof fn lemma_play_then_clear(cells: Seq<Option<Color>>, w: int, h: int, m: Move)
    requires
        m is Play,
        legal(cells, w, h, m),
        cells.len() == w * h,
    ensures
        after(cells, w, m).update(cell_index(w, m->pos), None) == cells,
        winner_of(after(cells, w, m).update(cell_index(w, m->pos), None), w, h) == winner_of(cells, w, h),
{
    lemma_index(w, h, m->pos.x as int, m->pos.y as int);
    assert(after(cells, w, m).update(cell_index(w, m->pos), None) =~= cells);
}

/// Every listed empty position is an empty cell of the board.
pub proof fn lemma_empty_positions_legal(cells: Seq<Option<Color>>, w: int, h: int, k: int)
    requires
        0 <= w,
        0 <= h,
        w <= 127,
        h <= 127,
        cells.len() == w * h,
        0 <= k <= w * h,
    ensures
        forall|t: int|
            0 <= t < empty_positions(cells, w, k).len() ==> {
                let p = #[trigger] empty_positions(cells, w, k)[t];
                in_board(w, h, p.x as int, p.y as int) && cells[cell_index(w, p)] is None
            },
    decreases k,
{
    if k > 0 {
        lemma_empty_positions_legal(cells, w, h, k - 1);
        lemma_decode(w, h, k - 1);
        let p = pos_of_index(w, k - 1);
        assert(p.x as int == (k - 1) % w && p.y as int == (k - 1) / w);
        assert(cell_index(w, p) == k - 1) by (nonlinear_arith)
            requires
                p.x as int == (k - 1) % w,
                p.y as int == (k - 1) / w,
                ((k - 1) / w) * w + (k - 1) % w == k - 1,
        ;
    }
}

/// Putting a stone on an empty cell takes one position off the list.
pub proof fn lemma_fill_shrinks(cells: Seq<Option<Color>>, w: int, k: int, j: int, c: Color)
    requires
        0 <= j < cells.len(),
        cells[j] is None,
        0 <= k <= cells.len(),
    ensures
        empty_positions(cells.update(j, Some(c)), w, k).len() + (if j < k { 1int } else { 0 })
            == empty_positions(cells, w, k).len(),
    decreases k,
{
    if k > 0 {
        lemma_fill_shrinks(cells, w, k - 1, j, c);
    }
}

/// An empty list means no empty cell.
pub proof fn lemma_no_empty_positions(cells: Seq<Option<Color>>, w: int, k: int)
    requires
        0 <= k <= cells.len(),
        empty_positions(cells, w, k).len() == 0,
    ensures
        forall|j: int| 0 <= j < k ==> #[trigger] cells[j] is Some,
    decreases k,
{
    if k > 0 {
        if cells[k - 1] is None {
            assert(empty_positions(cells, w, k).len() > 0);
        }
        lemma_no_empty_positions(cells, w, k - 1);
    }
}

/// At most `k` of the first `k` cells are listed.
pub proof fn lemma_empty_positions_len(cells: Seq<Option<Color>>, w: int, k: int)
    requires
        0 <= k,
    ensures
        empty_positions(cells, w, k).len() <= k,
    decreases k,
{
    if k > 0 {
        lemma_empty_positions_len(cells, w, k - 1);
    }
}

/// The letter of column `x` in the board picture: `a` onwards, and `?`
/// past `z`.
pub open spec fn column_letter(x: int) -> u8 {
    if 0 <= x < 26 {
        (97 + x) as u8
    } else {
        63
    }
}

/// The column letters of the first `k` columns, each followed by a space.
pub open spec fn letters_line(k: int) -> Seq<u8>
    decreases k,
{
    if k <= 0 {
        Seq::empty()
    } else {
        letters_line(k - 1) + seq![column_letter(k - 1), 32u8]
    }
}

pub open spec fn spaces(n: int) -> Seq<u8> {
    Seq::new(if n < 0 { 0nat } else { n as nat }, |i: int| 32u8)
}

/// The row number right-aligned in two places.
pub open spec fn row_label(n: nat) -> Seq<u8> {
    if n < 10 {
        seq![32u8] + decimal_bytes(n)
    } else {
        decimal_bytes(n)
    }
}

/// The picture of a stone or an empty cell.
pub open spec fn cell_char(c: Option<Color>) -> u8 {
    match c {
        Some(Color::Black) => 66,
        Some(Color::White) => 87,
        None => 43,
    }
}

/// The first `k` cells of row `y`, separated by spaces.
pub open spec fn row_cells(cells: Seq<Option<Color>>, w: int, y: int, k: int) -> Seq<u8>
    decreases k,
{
    if k <= 0 {
        Seq::empty()
    } else {
        let before = row_cells(cells, w, y, k - 1);
        let c = seq![cell_char(cells[y * w + k - 1])];
        if k - 1 == w - 1 {
            before + c
        } else {
            before + c + seq![32u8]
        }
    }
}

/// Row `y` of the picture, shifted right by `y` for the hex slant.
pub open spec fn row_line(cells: Seq<Option<Color>>, w: int, y: int) -> Seq<u8> {
    seq![10u8] + spaces(y) + row_label((y + 1) as nat) + seq![92u8] + row_cells(cells, w, y, w) + seq![92u8]
        + decimal_bytes((y + 1) as nat)
}

pub open spec fn rows_lines(cells: Seq<Option<Color>>, w: int, k: int) -> Seq<u8>
    decreases k,
{
    if k <= 0 {
        Seq::empty()
    } else {
        rows_lines(cells, w, k - 1) + row_line(cells, w, k - 1)
    }
}

/// The picture of the board: column letters above and below, and one
/// slanted line per row between two copies of the row number.
pub open spec fn board_picture(cells: Seq<Option<Color>>, w: int, h: int) -> Seq<u8> {
    seq![32u8, 32u8] + letters_line(w) + rows_lines(cells, w, h) + seq![10u8, 32u8, 32u8, 32u8] + spaces(h)
        + letters_line(w)
}

proof fn lemma_decimal_ascii(n: nat)
    ensures
        all_ascii(decimal_bytes(n)),
    decreases n,
{
    if n >= 10 {
        lemma_decimal_ascii(n / 10);
    }
}

fn push_letters(out: &mut Vec<u8>, w: i8)
    requires
        w >= 0,
        all_ascii(old(out)@),
    ensures
        final(out)@ == old(out)@ + letters_line(w as int),
        all_ascii(final(out)@),
{
    let ghost start = out@;
    let mut x: i8 = 0;
    while x < w
        invariant
            0 <= x <= w,
            out@ == start + letters_line(x as int),
            all_ascii(out@),
        decreases w - x,
    {
        let letter: u8 = if x < 26 {
            97u8 + x as u8
        } else {
            63u8
        };
        out.push(letter);
        out.push(32u8);
        assert(out@ =~= start + letters_line(x + 1));
        x = x + 1;
    }
}

fn push_spaces(out: &mut Vec<u8>, n: i8)
    requires
        n >= 0,
        all_ascii(old(out)@),
    ensures
        final(out)@ == old(out)@ + spaces(n as int),
        all_ascii(final(out)@),
{
    let ghost start = out@;
    let mut k: i8 = 0;
    while k < n
        invariant
            0 <= k <= n,
            out@ == start + spaces(k as int),
            all_ascii(out@),
        decreases n - k,
    {
        out.push(32u8);
        assert(out@ =~= start + spaces(k + 1));
        k = k + 1;
    }
}

fn push_decimal(out: &mut Vec<u8>, n: u8)
    requires
        n >= 1,
        all_ascii(old(out)@),
    ensures
        final(out)@ == old(out)@ + decimal_bytes(n as nat),
        all_ascii(final(out)@),
{
    proof {
        reveal_with_fuel(decimal_bytes, 3);
        lemma_decimal_ascii(n as nat);
    }
    let ghost start = out@;
    if n >= 100 {
        out.push(48 + n / 100);
        out.push(48 + (n / 10) % 10);
        out.push(48 + n % 10);
        assert(decimal_bytes(n as nat) =~= seq![(48 + n / 100) as u8, (48 + (n / 10) % 10) as u8, (48 + n % 10) as u8]);
    } else if n >= 10 {
        out.push(48 + n / 10);
        out.push(48 + n % 10);
        assert(decimal_bytes(n as nat) =~= seq![(48 + n / 10) as u8, (48 + n % 10) as u8]);
    } else {
        out.push(48 + n);
    }
    assert(out@ =~= start + decimal_bytes(n as nat));
}

impl Board {
    /// The picture of the board, as the protocol's `showboard` prints it.
    pub fn to_text(&self) -> (r: String)
        requires
            self.wf(),
        ensures
            r@ == ascii_chars(board_picture(self.cells(), self.width(), self.height())),
    {
        let w = self.dims.x;
        let h = self.dims.y;
        let ghost cells = self.cells();
        let mut out: Vec<u8> = Vec::new();
        out.push(32u8);
        out.push(32u8);
        push_letters(&mut out, w);
        let ghost head = out@;
        let mut y: i8 = 0;
        while y < h
            invariant
                self.sized(),
                w == self.width(),
                h == self.height(),
                cells == self.cells(),
                0 <= y <= h,
                out@ == head + rows_lines(cells, w as int, y as int),
                all_ascii(out@),
            decreases h - y,
        {
            let ghost before = out@;
            out.push(10u8);
            push_spaces(&mut out, y);
            let n: u8 = (y + 1) as u8;
            if n < 10 {
                out.push(32u8);
            }
            push_decimal(&mut out, n);
            out.push(92u8);
            let ghost mid = out@;
            let mut x: i8 = 0;
            while x < w
                invariant
                    self.sized(),
                    w == self.width(),
                    h == self.height(),
                    cells == self.cells(),
                    0 <= y < h,
                    0 <= x <= w,
                    out@ == mid + row_cells(cells, w as int, y as int, x as int),
                    all_ascii(out@),
                decreases w - x,
            {
                let c: u8 = match self.look(Pos { x, y }) {
                    Some(Color::Black) => 66u8,
                    Some(Color::White) => 87u8,
                    None => 43u8,
                };
                out.push(c);
                if x != w - 1 {
                    out.push(32u8);
                }
                assert(out@ =~= mid + row_cells(cells, w as int, y as int, x + 1));
                x = x + 1;
            }
            out.push(92u8);
            push_decimal(&mut out, n);
            proof {
                let label = row_label(n as nat);
                if n < 10 {
                    assert(label =~= seq![32u8] + decimal_bytes(n as nat));
                }
                assert(out@ =~= before + row_line(cells, w as int, y as int));
            }
            y = y + 1;
        }
        out.push(10u8);
        out.push(32u8);
        out.push(32u8);
        out.push(32u8);
        push_spaces(&mut out, h);
        push_letters(&mut out, w);
        assert(out@ =~= board_picture(cells, w as int, h as int));
        string_from_ascii(out)
    }
}

/// The first edge of a colour: the top row for Black, the left column
/// for White.
pub open spec fn on_first_edge(c: Color, w: int, h: int, x: int, y: int) -> bool {
    match c {
        Color::Black => y == 0,
        Color::White => x == 0,
    }
}

/// The second edge of a colour: the bottom row for Black, the right
/// column for White.
pub open spec fn on_second_edge(c: Color, w: int, h: int, x: int, y: int) -> bool {
    match c {
        Color::Black => y == h - 1,
        Color::White => x == w - 1,
    }
}

proof fn lemma_step_to_edge(cells: Seq<Option<Color>>, w: int, h: int, c: Color, x: int, y: int, dx: int, dy: int)
    requires
        in_board(w, h, x, y),
        hex_dir(dx, dy),
    ensures
        step_link(cells, w, h, c, x, y, dx, dy, w * h) ==> on_first_edge(c, w, h, x, y),
        step_link(cells, w, h, c, x, y, dx, dy, w * h + 1) ==> on_second_edge(c, w, h, x, y),
{
    if in_board(w, h, x + dx, y + dy) {
        lemma_index(w, h, x + dx, y + dy);
    }
}

/// A stone is linked to the first edge node of its colour exactly when it
/// stands on that colour's first edge, and to the second edge node exactly
/// when it stands on the second edge; the cells of the other colour and the
/// empty cells have no edge links.
pub proof fn lemma_edge_links(cells: Seq<Option<Color>>, w: int, h: int, c: Color, u: int)
    requires
        0 <= w,
        0 <= h,
        cells.len() == w * h,
        0 <= u < w * h,
    ensures
        board_links(cells, w, h, c)(u, w * h) <==> (cells[u] == Some(c) && on_first_edge(c, w, h, u % w, u / w)),
        board_links(cells, w, h, c)(u, w * h + 1) <==> (cells[u] == Some(c) && on_second_edge(c, w, h, u % w, u / w)),
{
    lemma_decode(w, h, u);
    let x = u % w;
    let y = u / w;
    assert(stone(cells, w, h, x, y) == cells[u]);
    lemma_step_to_edge(cells, w, h, c, x, y, -1, 0);
    lemma_step_to_edge(cells, w, h, c, x, y, 0, -1);
    lemma_step_to_edge(cells, w, h, c, x, y, -1, 1);
    lemma_step_to_edge(cells, w, h, c, x, y, 0, 1);
    lemma_step_to_edge(cells, w, h, c, x, y, 1, 0);
    lemma_step_to_edge(cells, w, h, c, x, y, 1, -1);
    if cells[u] == Some(c) {
        match c {
            Color::Black => {
                if y == 0 {
                    assert(step_link(cells, w, h, c, x, y, 0, -1, w * h));
                }
                if y == h - 1 {
                    assert(step_link(cells, w, h, c, x, y, 0, 1, w * h + 1));
                }
            },
            Color::White => {
                if x == 0 {
                    assert(step_link(cells, w, h, c, x, y, -1, 0, w * h));
                }
                if x == w - 1 {
                    assert(step_link(cells, w, h, c, x, y, 1, 0, w * h + 1));
                }
            },
        }
    }
}

impl Board {
    /// A stone of colour `d` shares the set of `d`'s first edge node exactly
    /// when its chain, over the links of colour `d`, reaches a stone of `d`
    /// on `d`'s first edge (the top row for Black, the left column for
    /// White); likewise for the second edge node and edge.
    pub proof fn lemma_edge_sets(&self, d: Color, a: int)
        requires
            self.wf(),
            0 <= a < self.area(),
        ensures
            (self.roots(d)[a] == self.roots(d)[self.area()]) <==> exists|b: int|
                0 <= b < self.area() && self.cells()[b] == Some(d) && on_first_edge(
                    d,
                    self.width(),
                    self.height(),
                    b % self.width(),
                    b / self.width(),
                ) && #[trigger] connected(
                    board_links(self.cells(), self.width(), self.height(), d),
                    self.area() + 2,
                    a,
                    b,
                ),
            (self.roots(d)[a] == self.roots(d)[self.area() + 1]) <==> exists|b: int|
                0 <= b < self.area() && self.cells()[b] == Some(d) && on_second_edge(
                    d,
                    self.width(),
                    self.height(),
                    b % self.width(),
                    b / self.width(),
                ) && #[trigger] connected(
                    board_links(self.cells(), self.width(), self.height(), d),
                    self.area() + 2,
                    a,
                    b,
                ),
    {
        let w = self.width();
        let h = self.height();
        lemma_edge_sets_one(self.cells(), w, h, d, a, w * h);
        lemma_edge_sets_one(self.cells(), w, h, d, a, w * h + 1);
    }
}

/// A stone reaches edge node `e` exactly when it reaches a stone linked to
/// `e`, which is a stone of `d` on the matching edge.
proof fn lemma_edge_sets_one(cells: Seq<Option<Color>>, w: int, h: int, d: Color, a: int, e: int)
    requires
        0 <= w,
        0 <= h,
        cells.len() == w * h,
        0 <= a < w * h,
        e == w * h || e == w * h + 1,
    ensures
        connected(board_links(cells, w, h, d), w * h + 2, a, e) <==> exists|b: int|
            0 <= b < w * h && cells[b] == Some(d) && (if e == w * h {
                on_first_edge(d, w, h, b % w, b / w)
            } else {
                on_second_edge(d, w, h, b % w, b / w)
            }) && #[trigger] connected(board_links(cells, w, h, d), w * h + 2, a, b),
{
    let l = board_links(cells, w, h, d);
    let n = w * h + 2;
    if connected(l, n, a, e) {
        lemma_last_step(l, n, a, e);
        let u = choose|u: int| 0 <= u < n && #[trigger] connected(l, n, a, u) && linked(l, u, e);
        assert(!l(e, u));
        lemma_edge_links(cells, w, h, d, u);
    }
    if exists|b: int|
        0 <= b < w * h && cells[b] == Some(d) && (if e == w * h {
            on_first_edge(d, w, h, b % w, b / w)
        } else {
            on_second_edge(d, w, h, b % w, b / w)
        }) && #[trigger] connected(l, n, a, b) {
        let b = choose|b: int|
            0 <= b < w * h && cells[b] == Some(d) && (if e == w * h {
                on_first_edge(d, w, h, b % w, b / w)
            } else {
                on_second_edge(d, w, h, b % w, b / w)
            }) && #[trigger] connected(l, n, a, b);
        lemma_edge_links(cells, w, h, d, b);
        lemma_single_link(l, n, b, e);
        lemma_path_join(l, n, a, b, e);
    }
}

} // verus!
