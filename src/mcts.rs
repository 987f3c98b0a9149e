//! Monte-Carlo tree search with RAVE: visit statistics, the rollout policy,
//! expansion, back-up, and the player that keeps a tree across moves.
use vstd::prelude::*;
use crate::board::{
    Board, after, cell_index, empty_positions, in_board, legal, stone, lemma_empty_positions_legal, lemma_index,
    lemma_fill_shrinks, lemma_no_empty_positions, lemma_empty_positions_len,
};
use crate::coord::{inverted, Color, Move, Pos};
use crate::graph::{subtree_copy, Node, NodeRef, Tree, WeakNodeRef};
use crate::outside::random_below;

verus! {

/// A visit count and a reward sum. Both only grow, and stop at
/// `isize::MAX`.
#[derive(Copy, Clone, Debug)]
pub struct Stats {
    n: isize,
    q: isize,
}

/// `a + b`, held at `isize::MAX`.
pub open spec fn capped_sum(a: int, b: int) -> int {
    if a + b > isize::MAX {
        isize::MAX as int
    } else {
        a + b
    }
}

impl Stats {
    pub closed spec fn count(&self) -> int {
        self.n as int
    }

    pub closed spec fn total(&self) -> int {
        self.q as int
    }

    pub closed spec fn wf(&self) -> bool {
        self.n >= 0 && self.q >= 0
    }

    pub fn new() -> (r: Stats)
        ensures
            r.wf(),
            r.count() == 0,
            r.total() == 0,
    {
        Stats { n: 0, q: 0 }
    }

    pub fn n(&self) -> (r: isize)
        ensures
            r == self.count(),
    {
        self.n
    }

    pub fn q(&self) -> (r: isize)
        ensures
            r == self.total(),
    {
        self.q
    }

    /// Adds `num` visits.
    pub fn visit(&mut self, num: isize)
        requires
            old(self).wf(),
            num >= 0,
        ensures
            final(self).wf(),
            final(self).count() == capped_sum(old(self).count(), num as int),
            final(self).total() == old(self).total(),
    {
        if self.n > isize::MAX - num {
            self.n = isize::MAX;
        } else {
            self.n = self.n + num;
        }
    }

    /// Adds `reward` to the reward sum.
    pub fn reward(&mut self, reward: isize)
        requires
            old(self).wf(),
            reward >= 0,
        ensures
            final(self).wf(),
            final(self).total() == capped_sum(old(self).total(), reward as int),
            final(self).count() == old(self).count(),
    {
        if self.q > isize::MAX - reward {
            self.q = isize::MAX;
        } else {
            self.q = self.q + reward;
        }
    }
}

/// What a search-tree node holds: the move into it, its own statistics, and
/// its RAVE statistics.
#[derive(Copy, Clone, Debug)]
pub struct MCTSNode {
    pub action: Move,
    pub mc: Stats,
    pub rave: Stats,
}

impl MCTSNode {
    pub open spec fn wf(&self) -> bool {
        self.mc.wf() && self.rave.wf()
    }

    pub fn new(action: Move) -> (r: MCTSNode)
        ensures
            r.wf(),
            r.action == action,
            r.mc.count() == 0,
            r.mc.total() == 0,
            r.rave.count() == 0,
            r.rave.total() == 0,
    {
        MCTSNode { action, mc: Stats::new(), rave: Stats::new() }
    }
}

/// The six directions around a cell, in turning order.
pub open spec fn ring_dx(i: int) -> int {
    if i == 0 {
        -1
    } else if i == 1 {
        0
    } else if i == 2 {
        1
    } else if i == 3 {
        1
    } else if i == 4 {
        0
    } else {
        -1
    }
}

pub open spec fn ring_dy(i: int) -> int {
    if i == 0 {
        0
    } else if i == 1 {
        -1
    } else if i == 2 {
        -1
    } else if i == 3 {
        0
    } else if i == 4 {
        1
    } else {
        1
    }
}

fn ring(i: usize) -> (r: (i8, i8))
    requires
        i < 6,
    ensures
        r.0 == ring_dx(i as int),
        r.1 == ring_dy(i as int),
{
    if i == 0 {
        (-1, 0)
    } else if i == 1 {
        (0, -1)
    } else if i == 2 {
        (1, -1)
    } else if i == 3 {
        (1, 0)
    } else if i == 4 {
        (0, 1)
    } else {
        (-1, 1)
    }
}

/// Around `(x, y)`, turn `i`: the neighbours at turns `i` and `i + 2` are
/// stones of colour `c` and the one between them, at turn `i + 1`, is an
/// empty cell; it is then the reply that keeps the two stones joined.
pub open spec fn bridge_reply(cells: Seq<Option<Color>>, w: int, h: int, c: Color, x: int, y: int, i: int) -> Option<Pos> {
    let a = i % 6;
    let r = (i + 1) % 6;
    let b = (i + 2) % 6;
    let rx = x + ring_dx(r);
    let ry = y + ring_dy(r);
    if stone(cells, w, h, x + ring_dx(a), y + ring_dy(a)) == Some(c) && stone(cells, w, h, x + ring_dx(b), y + ring_dy(b))
        == Some(c) && in_board(w, h, rx, ry) && stone(cells, w, h, rx, ry) is None {
        Some(Pos { x: rx as i8, y: ry as i8 })
    } else {
        None
    }
}

/// The first reply found turning from `start + j` up to `start + 5`.
pub open spec fn bridge_scan(cells: Seq<Option<Color>>, w: int, h: int, c: Color, x: int, y: int, start: int, j: int) -> Option<Pos>
    decreases 6 - j,
{
    if j >= 6 {
        None
    } else {
        match bridge_reply(cells, w, h, c, x, y, start + j) {
            Some(p) => Some(p),
            None => bridge_scan(cells, w, h, c, x, y, start, j + 1),
        }
    }
}

/// The forced move of the rollout policy: `Resign` once the game is won;
/// the reply that saves a bridge of the side to move that the last stone
/// cut into, scanning from turn `start`; otherwise `Pass`, which leaves the
/// choice free.
pub open spec fn forced_move(
    cells: Seq<Option<Color>>,
    w: int,
    h: int,
    winner: Option<Color>,
    last: Move,
    to_play: Color,
    start: int,
) -> Move {
    if winner is Some {
        Move::Resign
    } else {
        match last {
            Move::Play { pos, .. } => if in_board(w, h, pos.x as int, pos.y as int) {
                match bridge_scan(cells, w, h, to_play, pos.x as int, pos.y as int, start, 0) {
                    Some(p) => Move::Play { color: to_play, pos: p },
                    None => Move::Pass,
                }
            } else {
                Move::Pass
            },
            _ => Move::Pass,
        }
    }
}

/// The bridge reply around `pos` at turn `i`.
fn bridge_reply_at(state: &Board, c: Color, pos: Pos, i: usize) -> (r: Option<Pos>)
    requires
        state.wf(),
        in_board(state.width(), state.height(), pos.x as int, pos.y as int),
        i < 12,
    ensures
        r == bridge_reply(state.cells(), state.width(), state.height(), c, pos.x as int, pos.y as int, i as int),
{
    proof {
        state.lemma_measures();
    }
    let (ax, ay) = ring(i % 6);
    let (rx, ry) = ring((i + 1) % 6);
    let (bx, by) = ring((i + 2) % 6);
    let end_a = pos.offset(Pos { x: ax, y: ay });
    let end_b = pos.offset(Pos { x: bx, y: by });
    let resp = pos.offset(Pos { x: rx, y: ry });
    let a_ok = match state.get(end_a) {
        Some(d) => d == c,
        None => false,
    };
    let b_ok = match state.get(end_b) {
        Some(d) => d == c,
        None => false,
    };
    if a_ok && b_ok && state.on_board(resp) && state.get(resp).is_none() {
        Some(resp)
    } else {
        None
    }
}

/// The forced move on `state`, scanning the neighbours of the last stone
/// from turn `start`.
pub fn must_play_from(state: &Board, start: usize) -> (r: Move)
    requires
        state.wf(),
        start < 6,
    ensures
        r == forced_move(
            state.cells(),
            state.width(),
            state.height(),
            state.spec_winner(),
            state.spec_last_move(),
            state.spec_to_play(),
            start as int,
        ),
{
    proof {
        state.lemma_measures();
    }
    if state.winner().is_some() {
        return Move::Resign;
    }
    let last = state.last_move();
    match last {
        Move::Play { pos, .. } => {
            if !state.on_board(pos) {
                return Move::Pass;
            }
            let c = state.to_play();
            let mut j: usize = 0;
            while j < 6
                invariant
                    state.wf(),
                    j <= 6,
                    start < 6,
                    c == state.spec_to_play(),
                    state.spec_winner() is None,
                    state.spec_last_move() == last,
                    last matches Move::Play { pos: p, .. } && p == pos,
                    in_board(state.width(), state.height(), pos.x as int, pos.y as int),
                    bridge_scan(state.cells(), state.width(), state.height(), c, pos.x as int, pos.y as int, start as int, 0)
                        == bridge_scan(state.cells(), state.width(), state.height(), c, pos.x as int, pos.y as int, start as int, j as int),
                decreases 6 - j,
            {
                match bridge_reply_at(state, c, pos, start + j) {
                    Some(resp) => {
                        assert(bridge_scan(state.cells(), state.width(), state.height(), c, pos.x as int, pos.y as int, start as int, j as int) == Some(resp));
                        return Move::Play { color: c, pos: resp };
                    },
                    None => {},
                }
                j = j + 1;
            }
            Move::Pass
        },
        _ => Move::Pass,
    }
}

/// The forced move on `state`, scanning from a turn drawn at random.
pub fn must_play(state: &Board) -> (r: Move)
    requires
        state.wf(),
    ensures
        exists|start: int|
            0 <= start < 6 && r == forced_move(
                state.cells(),
                state.width(),
                state.height(),
                state.spec_winner(),
                state.spec_last_move(),
                state.spec_to_play(),
                start,
            ),
{
    let start = random_below(6);
    must_play_from(state, start)
}

/// The number of empty cells of a board.
pub open spec fn empty_count(b: &Board) -> nat {
    empty_positions(b.cells(), b.width(), b.area()).len()
}

/// The number of stones of colour `c` among the first `k` cells.
pub open spec fn stones_of(cells: Seq<Option<Color>>, c: Color, k: int) -> int
    decreases k,
{
    if k <= 0 {
        0
    } else {
        stones_of(cells, c, k - 1) + if cells[k - 1] == Some(c) {
            1int
        } else {
            0
        }
    }
}

/// How many stones of colour `c` a board has beyond another's.
pub open spec fn added(before: &Board, after: &Board, c: Color) -> int {
    stones_of(after.cells(), c, after.area()) - stones_of(before.cells(), c, before.area())
}

/// Putting a stone of colour `c` on an empty cell adds one stone of that
/// colour and none of another.
proof fn lemma_stones_fill(cells: Seq<Option<Color>>, k: int, j: int, c: Color, d: Color)
    requires
        0 <= j < cells.len(),
        cells[j] is None,
        0 <= k <= cells.len(),
    ensures
        stones_of(cells.update(j, Some(c)), d, k) == stones_of(cells, d, k) + if j < k && c == d {
            1int
        } else {
            0
        },
    decreases k,
{
    if k > 0 {
        lemma_stones_fill(cells, k - 1, j, c, d);
    }
}

/// Plays the game out from `state`: the forced move when there is one,
/// else a stone of the side to move on an empty cell drawn at random. Each
/// step fills one empty cell, so the playout ends; it returns the winner,
/// which is missing only if the board filled up without one.
pub fn roll_out(state: &mut Board) -> (r: Option<Color>)
    requires
        old(state).wf(),
    ensures
        final(state).wf(),
        r == final(state).spec_winner(),
        final(state).spec_dims() == old(state).spec_dims(),
        r is None ==> forall|i: int| 0 <= i < final(state).area() ==> #[trigger] final(state).cells()[i] is Some,
        forall|i: int| 0 <= i < old(state).area() && old(state).cells()[i] is Some ==> #[trigger] final(state).cells()[i]
            == old(state).cells()[i],
        empty_count(final(state)) <= empty_count(old(state)),
        added(old(state), final(state), old(state).spec_to_play()) == added(
            old(state),
            final(state),
            inverted(old(state).spec_to_play()),
        ) || added(old(state), final(state), old(state).spec_to_play()) == added(
            old(state),
            final(state),
            inverted(old(state).spec_to_play()),
        ) + 1,
        final(state).spec_to_play() == if added(old(state), final(state), old(state).spec_to_play()) == added(
            old(state),
            final(state),
            inverted(old(state).spec_to_play()),
        ) {
            old(state).spec_to_play()
        } else {
            inverted(old(state).spec_to_play())
        },
{
    proof {
        state.lemma_measures();
    }
    let ghost t0 = old(state).spec_to_play();
    loop
        invariant
            state.wf(),
            state.spec_dims() == old(state).spec_dims(),
            state.area() == old(state).area(),
            forall|i: int| 0 <= i < old(state).area() && old(state).cells()[i] is Some ==> #[trigger] state.cells()[i]
                == old(state).cells()[i],
            empty_count(state) <= empty_count(old(state)),
            added(old(state), state, t0) == added(old(state), state, inverted(t0)) || added(old(state), state, t0) == added(
                old(state),
                state,
                inverted(t0),
            ) + 1,
            state.spec_to_play() == if added(old(state), state, t0) == added(old(state), state, inverted(t0)) {
                t0
            } else {
                inverted(t0)
            },
            t0 == old(state).spec_to_play(),
        ensures
            state.wf(),
            state.spec_dims() == old(state).spec_dims(),
            forall|i: int| 0 <= i < old(state).area() && old(state).cells()[i] is Some ==> #[trigger] state.cells()[i]
                == old(state).cells()[i],
            empty_count(state) <= empty_count(old(state)),
            added(old(state), state, t0) == added(old(state), state, inverted(t0)) || added(old(state), state, t0) == added(
                old(state),
                state,
                inverted(t0),
            ) + 1,
            state.spec_to_play() == if added(old(state), state, t0) == added(old(state), state, inverted(t0)) {
                t0
            } else {
                inverted(t0)
            },
            t0 == old(state).spec_to_play(),
            state.spec_winner() is Some || forall|i: int| 0 <= i < state.area() ==> #[trigger] state.cells()[i] is Some,
        decreases empty_count(state),
    {
        proof {
            state.lemma_measures();
        }
        let ghost before = *state;
        let forced = must_play(state);
        let m = match forced {
            Move::Resign => {
                break;
            },
            Move::Pass => {
                let empty = state.empty_cells();
                if empty.len() == 0 {
                    proof {
                        lemma_no_empty_positions(state.cells(), state.width(), state.area());
                    }
                    break;
                }
                let k = random_below(empty.len());
                proof {
                    lemma_empty_positions_legal(state.cells(), state.width(), state.height(), state.area());
                    assert(empty@[k as int] == empty_positions(state.cells(), state.width(), state.area())[k as int]);
                }
                Move::new(state.to_play(), empty[k])
            },
            Move::Play { .. } => {
                proof {
                    let start = choose|start: int|
                        0 <= start < 6 && forced == forced_move(
                            state.cells(),
                            state.width(),
                            state.height(),
                            state.spec_winner(),
                            state.spec_last_move(),
                            state.spec_to_play(),
                            start,
                        );
                    let last = state.spec_last_move();
                    lemma_scan_is_empty_cell(state.cells(), state.width(), state.height(), state.spec_to_play(), last->pos.x as int, last->pos.y as int, start, 0);
                }
                forced
            },
        };
        let played = state.play(m);
        proof {
            lemma_index(before.width(), before.height(), m->pos.x as int, m->pos.y as int);
            assert(played);
            let idx = cell_index(before.width(), m->pos);
            lemma_fill_shrinks(before.cells(), before.width(), before.area(), idx, m->color);
            assert(m->color == before.spec_to_play());
            lemma_stones_fill(before.cells(), before.area(), idx, m->color, t0);
            lemma_stones_fill(before.cells(), before.area(), idx, m->color, inverted(t0));
            assert(state.cells() == before.cells().update(idx, Some(m->color)));
            assert(state.width() == before.width() && state.area() == before.area()) by {
                state.lemma_measures();
                before.lemma_measures();
            }
        }
    }
    state.winner()
}

/// A bridge reply is an empty cell of the board.
proof fn lemma_scan_is_empty_cell(cells: Seq<Option<Color>>, w: int, h: int, c: Color, x: int, y: int, start: int, j: int)
    requires
        w <= 127,
        h <= 127,
    ensures
        bridge_scan(cells, w, h, c, x, y, start, j) matches Some(p) ==> in_board(w, h, p.x as int, p.y as int)
            && cells[cell_index(w, p)] is None,
    decreases 6 - j,
{
    if j < 6 {
        lemma_scan_is_empty_cell(cells, w, h, c, x, y, start, j + 1);
    }
}

/// Every node's statistics are well formed.
pub open spec fn stats_ok(t: &Tree<MCTSNode>) -> bool {
    forall|i: int| 0 <= i < t@.len() ==> (#[trigger] t@[i].spec_data()).wf()
}

/// `t2` has the shape and the moves of `t1`; only statistics may differ.
pub open spec fn same_shape(t1: &Tree<MCTSNode>, t2: &Tree<MCTSNode>) -> bool {
    &&& t1@.len() == t2@.len()
    &&& t1.spec_root() == t2.spec_root()
    &&& forall|i: int|
        0 <= i < t1@.len() ==> (#[trigger] t2@[i]).spec_parent() == t1@[i].spec_parent()
            && t2@[i].spec_children() == t1@[i].spec_children() && t2@[i].spec_data().action
            == t1@[i].spec_data().action
}

/// A searchable tree.
pub open spec fn tree_ok(t: &Tree<MCTSNode>) -> bool {
    t.wf() && stats_ok(t)
}

/// The data of node `i` of `t`.
pub open spec fn node_data(t: &Tree<MCTSNode>, i: int) -> MCTSNode {
    t@[i].spec_data()
}

/// Writes new statistics into a node.
fn put(tree: &mut Tree<MCTSNode>, node: NodeRef, d: MCTSNode)
    requires
        tree_ok(old(tree)),
        old(tree).has(node),
        d.wf(),
        d.action == old(tree)@[node.index as int].spec_data().action,
    ensures
        tree_ok(final(tree)),
        same_shape(old(tree), final(tree)),
        node_data(final(tree), node.index as int) == d,
        forall|i: int|
            0 <= i < old(tree)@.len() && i != node.index ==> #[trigger] node_data(final(tree), i) == node_data(
                old(tree),
                i,
            ),
{
    tree.set_data(node, d);
    assert forall|i: int| 0 <= i < tree@.len() implies (#[trigger] tree@[i].spec_data()).wf() by {
        if i != node.index {
            assert(tree@[i].spec_data() == old(tree)@[i].spec_data());
        }
    }
}

/// Counts one more visit of `node`; during selection this is the virtual
/// loss that steers other workers elsewhere.
pub fn visit_node(tree: &mut Tree<MCTSNode>, node: NodeRef)
    requires
        tree_ok(old(tree)),
        old(tree).has(node),
    ensures
        tree_ok(final(tree)),
        same_shape(old(tree), final(tree)),
        node_data(final(tree), node.index as int).mc.count() == capped_sum(
            node_data(old(tree), node.index as int).mc.count(),
            1,
        ),
        node_data(final(tree), node.index as int).mc.total() == node_data(old(tree), node.index as int).mc.total(),
        node_data(final(tree), node.index as int).rave == node_data(old(tree), node.index as int).rave,
        forall|i: int|
            0 <= i < old(tree)@.len() && i != node.index ==> #[trigger] node_data(final(tree), i) == node_data(
                old(tree),
                i,
            ),
{
    let mut d = *tree.get(node).data();
    d.mc.visit(1);
    put(tree, node, d);
}

/// Steps into `child` during selection: counts the visit and plays its move
/// on `state`. Returns whether this is the child's first visit.
pub fn descend(tree: &mut Tree<MCTSNode>, child: NodeRef, state: &mut Board) -> (fresh: bool)
    requires
        tree_ok(old(tree)),
        old(tree).has(child),
        old(state).wf(),
    ensures
        tree_ok(final(tree)),
        same_shape(old(tree), final(tree)),
        node_data(final(tree), child.index as int).mc.count() == capped_sum(
            node_data(old(tree), child.index as int).mc.count(),
            1,
        ),
        forall|i: int|
            0 <= i < old(tree)@.len() && i != child.index ==> #[trigger] node_data(final(tree), i) == node_data(
                old(tree),
                i,
            ),
        fresh == (node_data(final(tree), child.index as int).mc.count() == 1),
        final(state).wf(),
        final(state).spec_dims() == old(state).spec_dims(),
        final(state).cells() == if legal(old(state).cells(), old(state).width(), old(state).height(), node_data(old(tree), child.index as int).action) {
            after(old(state).cells(), old(state).width(), node_data(old(tree), child.index as int).action)
        } else {
            old(state).cells()
        },
{
    visit_node(tree, child);
    let d = *tree.get(child).data();
    state.play(d.action);
    d.mc.n() == 1
}

/// Gives `node` one child per empty cell of `state`, in cell order, each
/// with a stone of `color` there, unless its children were given before.
/// Returns whether these children were added.
pub fn expand(tree: &mut Tree<MCTSNode>, color: Color, node: NodeRef, state: &Board) -> (added: bool)
    requires
        tree_ok(old(tree)),
        old(tree).has(node),
        state.wf(),
        old(tree)@.len() + state.area() < usize::MAX,
    ensures
        tree_ok(final(tree)),
        final(tree).spec_root() == old(tree).spec_root(),
        added == (old(tree)@[node.index as int].spec_children() is None),
        !added ==> final(tree)@ == old(tree)@,
        added ==> final(tree)@.len() == old(tree)@.len() + empty_count(state),
        added ==> final(tree)@[node.index as int].kids().len() == empty_count(state),
        added ==> forall|j: int|
            0 <= j < empty_count(state) ==> {
                let k = (#[trigger] final(tree)@[node.index as int].kids()[j]).index as int;
                &&& k == old(tree)@.len() + j
                &&& node_data(final(tree), k).action == Move::Play {
                    color,
                    pos: empty_positions(state.cells(), state.width(), state.area())[j],
                }
                &&& node_data(final(tree), k).mc.count() == 0
                &&& node_data(final(tree), k).rave.count() == 0
            },
        added ==> forall|i: int| 0 <= i < old(tree)@.len() ==> #[trigger] node_data(final(tree), i) == node_data(old(tree), i),
{
    let empty = state.empty_cells();
    let ghost cells_list = empty@;
    let mut datas: Vec<MCTSNode> = Vec::new();
    let mut j: usize = 0;
    while j < empty.len()
        invariant
            j <= empty@.len(),
            empty@ == cells_list,
            datas@.len() == j,
            forall|t: int|
                0 <= t < j ==> {
                    let d = #[trigger] datas@[t];
                    &&& d.wf()
                    &&& d.action == Move::Play { color, pos: cells_list[t] }
                    &&& d.mc.count() == 0
                    &&& d.rave.count() == 0
                },
        decreases empty@.len() - j,
    {
        datas.push(MCTSNode::new(Move::new(color, empty[j])));
        j = j + 1;
    }
    proof {
        state.lemma_measures();
        lemma_empty_positions_len(state.cells(), state.width(), state.area());
    }
    let ghost before = *tree;
    let ghost items = datas@;
    let added = node.add_children(tree, datas);
    proof {
        if added {
            assert forall|i: int| 0 <= i < tree@.len() implies (#[trigger] tree@[i].spec_data()).wf() by {
                if i < before@.len() {
                    if i != node.index {
                        assert(tree@[i] == before@[i]);
                    }
                } else {
                    assert(tree@[before@.len() + (i - before@.len())].spec_data() == datas@[i - before@.len()]);
                }
            }
            assert forall|j: int| 0 <= j < empty_count(state) implies {
                let k = (#[trigger] tree@[node.index as int].kids()[j]).index as int;
                &&& k == before@.len() + j
                &&& node_data(tree, k).action == Move::Play {
                    color,
                    pos: empty_positions(state.cells(), state.width(), state.area())[j],
                }
                &&& node_data(tree, k).mc.count() == 0
                &&& node_data(tree, k).rave.count() == 0
            } by {
                assert(tree@[before@.len() + j].spec_data() == items[j]);
            }
            assert forall|i: int| 0 <= i < before@.len() implies #[trigger] node_data(tree, i) == node_data(&before, i) by {
                if i != node.index {
                    assert(tree@[i] == before@[i]);
                }
            }
        }
    }
    added
}

/// The moves a playout counts as played: every stone on the final board,
/// and the moves of the tree nodes passed on the way back up.
pub open spec fn in_played(cells: Seq<Option<Color>>, w: int, h: int, extras: Seq<Move>, m: Move) -> bool {
    ||| (m matches Move::Play { color, pos } && in_board(w, h, pos.x as int, pos.y as int) && cells[cell_index(w, pos)]
        == Some(color))
    ||| extras.contains(m)
}

fn played_has(endgame: &Board, extras: &Vec<Move>, m: Move) -> (r: bool)
    requires
        endgame.wf(),
    ensures
        r == in_played(endgame.cells(), endgame.width(), endgame.height(), extras@, m),
{
    proof {
        endgame.lemma_measures();
    }
    match m {
        Move::Play { color, pos } => {
            if endgame.on_board(pos) {
                match endgame.get(pos) {
                    Some(c) => {
                        if c == color {
                            return true;
                        }
                    },
                    None => {},
                }
            }
        },
        _ => {},
    }
    let mut j: usize = 0;
    while j < extras.len()
        invariant
            endgame.wf(),
            j <= extras@.len(),
            !(m matches Move::Play { color, pos } && in_board(endgame.width(), endgame.height(), pos.x as int, pos.y as int)
                && endgame.cells()[cell_index(endgame.width(), pos)] == Some(color)),
            forall|t: int| 0 <= t < j ==> extras@[t] != m,
        decreases extras@.len() - j,
    {
        if extras[j] == m {
            return true;
        }
        j = j + 1;
    }
    false
}

/// Adds `reward` to the reward sum of `node`.
fn credit_node(tree: &mut Tree<MCTSNode>, node: NodeRef, reward: isize)
    requires
        tree_ok(old(tree)),
        old(tree).has(node),
        0 <= reward <= 1,
    ensures
        tree_ok(final(tree)),
        same_shape(old(tree), final(tree)),
        node_data(final(tree), node.index as int).mc.total() == capped_sum(
            node_data(old(tree), node.index as int).mc.total(),
            reward as int,
        ),
        node_data(final(tree), node.index as int).mc.count() == node_data(old(tree), node.index as int).mc.count(),
        node_data(final(tree), node.index as int).rave == node_data(old(tree), node.index as int).rave,
        forall|i: int|
            0 <= i < old(tree)@.len() && i != node.index ==> #[trigger] node_data(final(tree), i) == node_data(
                old(tree),
                i,
            ),
{
    let mut d = *tree.get(node).data();
    d.mc.reward(reward);
    put(tree, node, d);
}

/// The RAVE update of one child: one more RAVE visit and `reward` more
/// RAVE reward when its move was played.
pub open spec fn rave_credited(before: MCTSNode, after: MCTSNode, hit: bool, reward: int) -> bool {
    &&& after.action == before.action
    &&& after.mc == before.mc
    &&& hit ==> after.rave.count() == capped_sum(before.rave.count(), 1) && after.rave.total() == capped_sum(
        before.rave.total(),
        reward,
    )
    &&& !hit ==> after.rave == before.rave
}

/// Credits RAVE statistics to each child of `parent` whose move was played.
fn credit_rave(tree: &mut Tree<MCTSNode>, parent: NodeRef, reward: isize, endgame: &Board, extras: &Vec<Move>)
    requires
        tree_ok(old(tree)),
        old(tree).has(parent),
        0 <= reward <= 1,
        endgame.wf(),
    ensures
        tree_ok(final(tree)),
        same_shape(old(tree), final(tree)),
        forall|t: int|
            0 <= t < old(tree)@[parent.index as int].kids().len() ==> {
                let k = (#[trigger] old(tree)@[parent.index as int].kids()[t]).index as int;
                rave_credited(
                    node_data(old(tree), k),
                    node_data(final(tree), k),
                    in_played(endgame.cells(), endgame.width(), endgame.height(), extras@, node_data(old(tree), k).action),
                    reward as int,
                )
            },
        forall|i: int|
            0 <= i < old(tree)@.len() && (forall|t: int|
                0 <= t < old(tree)@[parent.index as int].kids().len() ==> #[trigger] old(tree)@[parent.index
                    as int].kids()[t].index != i) ==> #[trigger] node_data(final(tree), i) == node_data(old(tree), i),
{
    let ghost kids = tree@[parent.index as int].kids();
    let count = tree.get(parent).children().len();
    let mut t: usize = 0;
    while t < count
        invariant
            tree_ok(tree),
            same_shape(old(tree), tree),
            old(tree).has(parent),
            kids == old(tree)@[parent.index as int].kids(),
            count == kids.len(),
            t <= count,
            0 <= reward <= 1,
            endgame.wf(),
            forall|t2: int|
                0 <= t2 < t ==> {
                    let k = (#[trigger] kids[t2]).index as int;
                    rave_credited(
                        node_data(old(tree), k),
                        node_data(tree, k),
                        in_played(endgame.cells(), endgame.width(), endgame.height(), extras@, node_data(old(tree), k).action),
                        reward as int,
                    )
                },
            forall|i: int|
                0 <= i < old(tree)@.len() && (forall|t2: int| 0 <= t2 < t ==> #[trigger] kids[t2].index != i)
                    ==> #[trigger] node_data(tree, i) == node_data(old(tree), i),
        decreases count - t,
    {
        let child = tree.get(parent).children()[t];
        assert(child == kids[t as int]);
        assert(forall|t2: int| 0 <= t2 < t ==> #[trigger] kids[t2].index != child.index) by {
            assert forall|t2: int| 0 <= t2 < t implies #[trigger] kids[t2].index != child.index by {
                assert(kids[t2].index < kids[t as int].index);
            }
        }
        let mut d = *tree.get(child).data();
        if played_has(endgame, extras, d.action) {
            d.rave.visit(1);
            d.rave.reward(reward);
            put(tree, child, d);
        }
        proof {
            assert forall|t2: int| 0 <= t2 < t implies kids[t2].index != child.index by {
                assert(kids[t2].index < kids[t as int].index);
            }
        }
        t = t + 1;
    }
    assert forall|i: int|
        0 <= i < old(tree)@.len() && (forall|t2: int| 0 <= t2 < kids.len() ==> #[trigger] kids[t2].index != i)
            implies #[trigger] node_data(tree, i) == node_data(old(tree), i) by {}
}

/// The reward of a node's move for the playout's outcome: 1 when its
/// colour won.
pub open spec fn reward_of(action: Move, outcome: Option<Color>) -> int {
    match (action, outcome) {
        (Move::Play { color, .. }, Some(w)) => if color == w {
            1
        } else {
            0
        },
        _ => 0,
    }
}

fn reward_for(action: Move, outcome: Option<Color>) -> (r: isize)
    ensures
        r == reward_of(action, outcome),
{
    match (action, outcome) {
        (Move::Play { color, .. }, Some(w)) => if color == w {
            1
        } else {
            0
        },
        _ => 0,
    }
}

/// The node `i` steps up the parent chain from `v`, or -1 past the top.
pub open spec fn up(t: Seq<Node<MCTSNode>>, v: int, i: nat) -> int
    decreases i,
{
    if i == 0 {
        v
    } else {
        let u = up(t, v, (i - 1) as nat);
        if 0 <= u < t.len() {
            match t[u].spec_parent() {
                Some(p) => p.index as int,
                None => -1,
            }
        } else {
            -1
        }
    }
}

/// The reward at `i` steps up: it flips at each level.
pub open spec fn flip(r0: int, i: nat) -> int {
    if i % 2 == 0 {
        r0
    } else {
        1 - r0
    }
}

/// The moves of the first `i` nodes of the chain up from `v`.
pub open spec fn chain_moves(t: Seq<Node<MCTSNode>>, v: int, i: nat) -> Seq<Move>
    decreases i,
{
    if i == 0 {
        Seq::empty()
    } else {
        chain_moves(t, v, (i - 1) as nat).push(t[up(t, v, (i - 1) as nat)].spec_data().action)
    }
}

/// Node `j` is one of the first `k + 1` nodes of the chain up from `v`.
pub open spec fn on_chain(t: Seq<Node<MCTSNode>>, v: int, k: nat, j: int) -> bool {
    exists|i: nat| i <= k && #[trigger] up(t, v, i) == j
}

/// Node `j` is a child of one of the nodes 1 to `k` steps up from `v`.
pub open spec fn child_on_chain(t: Seq<Node<MCTSNode>>, v: int, k: nat, j: int) -> bool {
    exists|i: nat, q: int|
        1 <= i <= k && 0 <= #[trigger] up(t, v, i) && 0 <= q < t[up(t, v, i)].kids().len() && #[trigger] t[up(
            t,
            v,
            i,
        )].kids()[q].index == j
}

/// Node `j` is on the parent chain up from `v`.
pub open spec fn reached(t: Seq<Node<MCTSNode>>, v: int, j: int) -> bool {
    exists|i: nat| #[trigger] up(t, v, i) == j
}

/// Node `j` is a child of a node one or more steps up from `v`.
pub open spec fn child_of_reached(t: Seq<Node<MCTSNode>>, v: int, j: int) -> bool {
    exists|i: nat, q: int|
        1 <= i && 0 <= #[trigger] up(t, v, i) && 0 <= q < t[up(t, v, i)].kids().len() && #[trigger] t[up(t, v, i)].kids()[q].index
            == j
}

/// The RAVE statistics after a playout: one more visit and `reward` more
/// when the move was played, else as they were.
pub open spec fn rave_step(before: Stats, after: Stats, hit: bool, reward: int) -> bool {
    &&& hit ==> after.count() == capped_sum(before.count(), 1) && after.total() == capped_sum(before.total(), reward)
    &&& !hit ==> after == before
}

proof fn lemma_up_below(t: &Tree<MCTSNode>, v: int, i: nat, i2: nat)
    requires
        t.wf(),
        0 <= v < t@.len(),
        i < i2,
        0 <= up(t@, v, i2),
    ensures
        0 <= up(t@, v, i2) < up(t@, v, i) < t@.len(),
    decreases i2,
{
    let u = up(t@, v, (i2 - 1) as nat);
    if i + 1 < i2 {
        lemma_up_below(t, v, i, (i2 - 1) as nat);
    } else {
        if i > 0 {
            lemma_up_below(t, v, 0, i);
        }
    }
    assert(0 <= u < t@.len());
    assert(t@[u].spec_parent() matches Some(p) && p.index < u);
}

proof fn lemma_up_ended(t: Seq<Node<MCTSNode>>, v: int, k: nat, i: nat)
    requires
        up(t, v, k + 1) < 0,
        i > k,
    ensures
        up(t, v, i) < 0,
    decreases i,
{
    if i > k + 1 {
        lemma_up_ended(t, v, k, (i - 1) as nat);
    }
}

/// One level of the back-up keeps its invariant: RAVE credit to the
/// children of the next node up, then its reward.
proof fn lemma_back_up_step(
    t0: &Tree<MCTSNode>,
    mid: &Tree<MCTSNode>,
    mid2: &Tree<MCTSNode>,
    t3: &Tree<MCTSNode>,
    endgame: &Board,
    v: int,
    k: nat,
    r0: int,
    extras: Seq<Move>,
)
    requires
        tree_ok(t0),
        0 <= v < t0@.len(),
        0 <= up(t0@, v, k) < t0@.len(),
        0 <= up(t0@, v, k + 1),
        0 <= r0 <= 1,
        same_shape(t0, mid),
        same_shape(t0, mid2),
        same_shape(t0, t3),
        extras == chain_moves(t0@, v, k + 2),
        forall|j: int| 0 <= j < t0@.len() ==> #[trigger] node_data(mid, j).mc.count() == node_data(t0, j).mc.count(),
        forall|i: nat|
            i <= k ==> #[trigger] node_data(mid, up(t0@, v, i)).mc.total() == capped_sum(
                node_data(t0, up(t0@, v, i)).mc.total(),
                flip(r0, i),
            ),
        forall|j: int|
            0 <= j < t0@.len() && !on_chain(t0@, v, k, j) ==> #[trigger] node_data(mid, j).mc.total() == node_data(t0, j).mc.total(),
        forall|i: nat, q: int|
            1 <= i <= k && 0 <= up(t0@, v, i) && 0 <= q < t0@[up(t0@, v, i)].kids().len() ==> {
                let c = (#[trigger] t0@[up(t0@, v, i)].kids()[q]).index as int;
                rave_step(
                    node_data(t0, c).rave,
                    node_data(mid, c).rave,
                    in_played(endgame.cells(), endgame.width(), endgame.height(), chain_moves(t0@, v, i), node_data(t0, c).action),
                    flip(r0, (i - 1) as nat),
                )
            },
        forall|j: int| 0 <= j < t0@.len() && !child_on_chain(t0@, v, k, j) ==> #[trigger] node_data(mid, j).rave == node_data(t0, j).rave,
        // what the RAVE credit did
        forall|j: int| 0 <= j < t0@.len() ==> #[trigger] node_data(mid2, j).mc == node_data(mid, j).mc,
        forall|q: int|
            0 <= q < mid@[up(t0@, v, k + 1)].kids().len() ==> {
                let c = (#[trigger] mid@[up(t0@, v, k + 1)].kids()[q]).index as int;
                rave_credited(
                    node_data(mid, c),
                    node_data(mid2, c),
                    in_played(endgame.cells(), endgame.width(), endgame.height(), chain_moves(t0@, v, k + 1), node_data(mid, c).action),
                    flip(r0, k),
                )
            },
        forall|j: int|
            0 <= j < t0@.len() && (forall|q: int|
                0 <= q < mid@[up(t0@, v, k + 1)].kids().len() ==> #[trigger] mid@[up(t0@, v, k + 1)].kids()[q].index != j)
                ==> #[trigger] node_data(mid2, j) == node_data(mid, j),
        // what the reward did
        node_data(t3, up(t0@, v, k + 1)).mc.total() == capped_sum(node_data(mid2, up(t0@, v, k + 1)).mc.total(), flip(r0, k + 1)),
        node_data(t3, up(t0@, v, k + 1)).mc.count() == node_data(mid2, up(t0@, v, k + 1)).mc.count(),
        node_data(t3, up(t0@, v, k + 1)).rave == node_data(mid2, up(t0@, v, k + 1)).rave,
        forall|j: int| 0 <= j < t0@.len() && j != up(t0@, v, k + 1) ==> #[trigger] node_data(t3, j) == node_data(mid2, j),
    ensures
        forall|j: int| 0 <= j < t0@.len() ==> #[trigger] node_data(t3, j).mc.count() == node_data(t0, j).mc.count(),
        forall|i: nat|
            i <= k + 1 ==> #[trigger] node_data(t3, up(t0@, v, i)).mc.total() == capped_sum(
                node_data(t0, up(t0@, v, i)).mc.total(),
                flip(r0, i),
            ),
        forall|j: int|
            0 <= j < t0@.len() && !on_chain(t0@, v, k + 1, j) ==> #[trigger] node_data(t3, j).mc.total() == node_data(t0, j).mc.total(),
        forall|i: nat, q: int|
            1 <= i <= k + 1 && 0 <= up(t0@, v, i) && 0 <= q < t0@[up(t0@, v, i)].kids().len() ==> {
                let c = (#[trigger] t0@[up(t0@, v, i)].kids()[q]).index as int;
                rave_step(
                    node_data(t0, c).rave,
                    node_data(t3, c).rave,
                    in_played(endgame.cells(), endgame.width(), endgame.height(), chain_moves(t0@, v, i), node_data(t0, c).action),
                    flip(r0, (i - 1) as nat),
                )
            },
        forall|j: int|
            0 <= j < t0@.len() && !child_on_chain(t0@, v, k + 1, j) ==> #[trigger] node_data(t3, j).rave == node_data(t0, j).rave,
{
    let s = t0@;
    let k1 = k + 1;
    let p = up(s, v, k1);
    lemma_up_below(t0, v, k, k1);
    assert(p < s.len());
    assert(mid@[p].kids() == s[p].kids());
    // a child of `p` is a child of no earlier chain node, and no earlier
    // chain node is `p`
    assert forall|i: nat| i <= k implies #[trigger] up(s, v, i) != p by {
        lemma_up_below(t0, v, i, k1);
    }
    assert forall|q: int| 0 <= q < s[p].kids().len() implies !child_on_chain(s, v, k, #[trigger] s[p].kids()[q].index as int) by {
        let c = s[p].kids()[q].index as int;
        assert(s[c].spec_parent() == Some(WeakNodeRef { index: p as usize }));
        if child_on_chain(s, v, k, c) {
            let (i, q2) = choose|i: nat, q2: int|
                1 <= i <= k && 0 <= #[trigger] up(s, v, i) && 0 <= q2 < s[up(s, v, i)].kids().len()
                    && #[trigger] s[up(s, v, i)].kids()[q2].index == c;
            lemma_up_below(t0, v, i, k1);
            assert(s[c].spec_parent() == Some(WeakNodeRef { index: up(s, v, i) as usize }));
        }
    }
    assert forall|i: nat| i <= k1 implies #[trigger] node_data(t3, up(s, v, i)).mc.total() == capped_sum(
        node_data(t0, up(s, v, i)).mc.total(),
        flip(r0, i),
    ) by {
        if i <= k {
            lemma_up_below(t0, v, i, k1);
            assert(node_data(mid2, up(s, v, i)).mc == node_data(mid, up(s, v, i)).mc);
        } else {
            assert(!on_chain(s, v, k, p));
            assert(node_data(mid2, p).mc == node_data(mid, p).mc);
        }
    }
    assert forall|j: int| 0 <= j < s.len() && !on_chain(s, v, k1, j) implies #[trigger] node_data(t3, j).mc.total()
        == node_data(t0, j).mc.total() by {
        if on_chain(s, v, k, j) {
            let i = choose|i: nat| i <= k && #[trigger] up(s, v, i) == j;
            assert(on_chain(s, v, k1, j));
        }
        assert(j != p);
        assert(node_data(mid2, j).mc == node_data(mid, j).mc);
    }
    assert forall|j: int| 0 <= j < s.len() implies #[trigger] node_data(t3, j).mc.count() == node_data(t0, j).mc.count() by {
        assert(node_data(mid2, j).mc == node_data(mid, j).mc);
    }
    assert forall|i: nat, q: int|
        1 <= i <= k1 && 0 <= up(s, v, i) && 0 <= q < s[up(s, v, i)].kids().len() implies {
            let c = (#[trigger] s[up(s, v, i)].kids()[q]).index as int;
            rave_step(
                node_data(t0, c).rave,
                node_data(t3, c).rave,
                in_played(endgame.cells(), endgame.width(), endgame.height(), chain_moves(s, v, i), node_data(t0, c).action),
                flip(r0, (i - 1) as nat),
            )
        } by {
        let c = s[up(s, v, i)].kids()[q].index as int;
        if i <= k {
            lemma_up_below(t0, v, i, k1);
            assert(s[c].spec_parent() == Some(WeakNodeRef { index: up(s, v, i) as usize }));
            assert forall|q2: int| 0 <= q2 < mid@[p].kids().len() implies #[trigger] mid@[p].kids()[q2].index != c by {
                if mid@[p].kids()[q2].index == c {
                    assert(s[c].spec_parent() == Some(WeakNodeRef { index: p as usize }));
                }
            }
            assert(c != p) by {
                assert(c > up(s, v, i));
            }
        } else {
            assert(up(s, v, i) == p);
            assert(!child_on_chain(s, v, k, c));
            assert(mid@[p].kids()[q].index == c);
            assert(c != p);
        }
    }
    assert forall|j: int| 0 <= j < s.len() && !child_on_chain(s, v, k1, j) implies #[trigger] node_data(t3, j).rave
        == node_data(t0, j).rave by {
        assert forall|q: int| 0 <= q < mid@[p].kids().len() implies #[trigger] mid@[p].kids()[q].index != j by {
            if mid@[p].kids()[q].index == j {
                assert(s[up(s, v, k1)].kids()[q].index == j);
                assert(child_on_chain(s, v, k1, j));
            }
        }
        if child_on_chain(s, v, k, j) {
            let (i, q) = choose|i: nat, q: int|
                1 <= i <= k && 0 <= #[trigger] up(s, v, i) && 0 <= q < s[up(s, v, i)].kids().len()
                    && #[trigger] s[up(s, v, i)].kids()[q].index == j;
            assert(child_on_chain(s, v, k1, j));
        }
    }
}

/// `t1` is `t0` after backing up `outcome` from node `v` over the final
/// board `endgame`: along the parent chain `v0 = v, v1, ..`, with `r0` the
/// reward of `v`'s move, `vi` gets reward `r0` or `1 - r0` as `i` is even or
/// odd; each child of `vi`, for `i >= 1`, whose move is on the final board
/// or among the moves of `v0 .. v(i-1)` gets a RAVE visit with the reward
/// of `v(i-1)`. No visit count changes, and no other statistic.
pub open spec fn backed_up(t0: &Tree<MCTSNode>, t1: &Tree<MCTSNode>, v: int, outcome: Option<Color>, endgame: &Board) -> bool {
    let r0 = reward_of(node_data(t0, v).action, outcome);
    &&& forall|j: int| 0 <= j < t0@.len() ==> #[trigger] node_data(t1, j).mc.count() == node_data(t0, j).mc.count()
    &&& forall|i: nat|
        0 <= #[trigger] up(t0@, v, i) ==> node_data(t1, up(t0@, v, i)).mc.total() == capped_sum(
            node_data(t0, up(t0@, v, i)).mc.total(),
            flip(r0, i),
        )
    &&& forall|j: int|
        0 <= j < t0@.len() && !reached(t0@, v, j) ==> #[trigger] node_data(t1, j).mc.total() == node_data(t0, j).mc.total()
    &&& forall|i: nat, q: int|
        1 <= i && 0 <= #[trigger] up(t0@, v, i) && 0 <= q < t0@[up(t0@, v, i)].kids().len() ==> {
            let c = (#[trigger] t0@[up(t0@, v, i)].kids()[q]).index as int;
            rave_step(
                node_data(t0, c).rave,
                node_data(t1, c).rave,
                in_played(endgame.cells(), endgame.width(), endgame.height(), chain_moves(t0@, v, i), node_data(t0, c).action),
                flip(r0, (i - 1) as nat),
            )
        }
    &&& forall|j: int|
        0 <= j < t0@.len() && !child_of_reached(t0@, v, j) ==> #[trigger] node_data(t1, j).rave == node_data(t0, j).rave
}

/// Carries a playout's outcome from `node` up to the top of the tree, as
/// `backed_up` describes: rewards flipping level by level along the parent
/// chain, and RAVE credit to the children of each node above `node`.
pub fn back_up(tree: &mut Tree<MCTSNode>, node: NodeRef, outcome: Option<Color>, endgame: &Board)
    requires
        tree_ok(old(tree)),
        old(tree).has(node),
        endgame.wf(),
    ensures
        tree_ok(final(tree)),
        same_shape(old(tree), final(tree)),
        backed_up(old(tree), final(tree), node.index as int, outcome, endgame),
{
    let ghost s = old(tree)@;
    let ghost v = node.index as int;
    let ghost r0 = reward_of(node_data(old(tree), v).action, outcome);
    let mut extras: Vec<Move> = Vec::new();
    let mut node = node;
    let mut reward = reward_for(tree.get(node).data().action, outcome);
    credit_node(tree, node, reward);
    extras.push(tree.get(node).data().action);
    let ghost mut k: nat = 0;
    proof {
        assert(up(s, v, 0) == v);
        assert(chain_moves(s, v, 0) =~= Seq::<Move>::empty());
        assert(tree@[v].spec_data().action == s[v].spec_data().action);
        assert(chain_moves(s, v, 1) == chain_moves(s, v, 0).push(s[up(s, v, 0)].spec_data().action));
        assert(extras@ =~= chain_moves(s, v, 1));
        assert forall|j: int| 0 <= j < s.len() && !on_chain(s, v, 0, j) implies #[trigger] node_data(tree, j).mc.total()
            == node_data(old(tree), j).mc.total() by {
            assert(up(s, v, 0) == v);
        }
    }
    loop
        invariant
            tree_ok(tree),
            same_shape(old(tree), tree),
            s == old(tree)@,
            tree_ok(old(tree)),
            0 <= v < s.len(),
            endgame.wf(),
            node.index as int == up(s, v, k),
            0 <= up(s, v, k) < s.len(),
            extras@ == chain_moves(s, v, k + 1),
            reward == flip(r0, k),
            0 <= reward <= 1,
            forall|j: int| 0 <= j < s.len() ==> #[trigger] node_data(tree, j).mc.count() == node_data(old(tree), j).mc.count(),
            forall|i: nat|
                i <= k ==> #[trigger] node_data(tree, up(s, v, i)).mc.total() == capped_sum(
                    node_data(old(tree), up(s, v, i)).mc.total(),
                    flip(r0, i),
                ),
            forall|j: int|
                0 <= j < s.len() && !on_chain(s, v, k, j) ==> #[trigger] node_data(tree, j).mc.total() == node_data(
                    old(tree),
                    j,
                ).mc.total(),
            forall|i: nat, q: int|
                1 <= i <= k && 0 <= up(s, v, i) && 0 <= q < s[up(s, v, i)].kids().len() ==> {
                    let c = (#[trigger] s[up(s, v, i)].kids()[q]).index as int;
                    rave_step(
                        node_data(old(tree), c).rave,
                        node_data(tree, c).rave,
                        in_played(endgame.cells(), endgame.width(), endgame.height(), chain_moves(s, v, i), node_data(old(tree), c).action),
                        flip(r0, (i - 1) as nat),
                    )
                },
            forall|j: int|
                0 <= j < s.len() && !child_on_chain(s, v, k, j) ==> #[trigger] node_data(tree, j).rave == node_data(old(tree), j).rave,
        ensures
            tree_ok(tree),
            same_shape(old(tree), tree),
            up(s, v, k + 1) < 0,
            forall|j: int| 0 <= j < s.len() ==> #[trigger] node_data(tree, j).mc.count() == node_data(old(tree), j).mc.count(),
            forall|i: nat|
                i <= k ==> #[trigger] node_data(tree, up(s, v, i)).mc.total() == capped_sum(
                    node_data(old(tree), up(s, v, i)).mc.total(),
                    flip(r0, i),
                ),
            forall|j: int|
                0 <= j < s.len() && !on_chain(s, v, k, j) ==> #[trigger] node_data(tree, j).mc.total() == node_data(
                    old(tree),
                    j,
                ).mc.total(),
            forall|i: nat, q: int|
                1 <= i <= k && 0 <= up(s, v, i) && 0 <= q < s[up(s, v, i)].kids().len() ==> {
                    let c = (#[trigger] s[up(s, v, i)].kids()[q]).index as int;
                    rave_step(
                        node_data(old(tree), c).rave,
                        node_data(tree, c).rave,
                        in_played(endgame.cells(), endgame.width(), endgame.height(), chain_moves(s, v, i), node_data(old(tree), c).action),
                        flip(r0, (i - 1) as nat),
                    )
                },
            forall|j: int|
                0 <= j < s.len() && !child_on_chain(s, v, k, j) ==> #[trigger] node_data(tree, j).rave == node_data(old(tree), j).rave,
        decreases node.index,
    {
        let parent = match tree.get(node).parent() {
            Some(p) => p.upgrade(),
            None => {
                break;
            },
        };
        let ghost p = parent.index as int;
        let ghost mid = *tree;
        proof {
            assert(up(s, v, k + 1) == p);
            lemma_up_below(old(tree), v, k, k + 1);
        }
        credit_rave(tree, parent, reward, endgame, &extras);
        let ghost mid2 = *tree;
        proof {
            assert forall|j: int| 0 <= j < s.len() implies #[trigger] node_data(&mid2, j).mc == node_data(&mid, j).mc by {
                if exists|t2: int| 0 <= t2 < mid@[p].kids().len() && mid@[p].kids()[t2].index == j {
                    let t2 = choose|t2: int| 0 <= t2 < mid@[p].kids().len() && mid@[p].kids()[t2].index == j;
                    assert(mid@[p].kids()[t2].index == j);
                }
            }
        }
        reward = 1 - reward;
        node = parent;
        credit_node(tree, node, reward);
        extras.push(tree.get(node).data().action);
        proof {
            let k1 = k + 1;
            assert(tree@[p].spec_data().action == s[up(s, v, k1)].spec_data().action);
            assert(extras@ =~= chain_moves(s, v, k1 + 1));
            assert(reward == flip(r0, k1));
            lemma_back_up_step(old(tree), &mid, &mid2, tree, endgame, v, k, r0, extras@);
            k = k1;
        }
    }
    proof {
        assert forall|i: nat| 0 <= #[trigger] up(s, v, i) implies i <= k by {
            if i > k {
                lemma_up_ended(s, v, k, i);
            }
        }
        assert forall|j: int| on_chain(s, v, k, j) implies reached(s, v, j) by {
            let i = choose|i: nat| i <= k && #[trigger] up(s, v, i) == j;
        }
        assert forall|j: int| child_on_chain(s, v, k, j) implies child_of_reached(s, v, j) by {
            let (i, q) = choose|i: nat, q: int|
                1 <= i <= k && 0 <= #[trigger] up(s, v, i) && 0 <= q < s[up(s, v, i)].kids().len()
                    && #[trigger] s[up(s, v, i)].kids()[q].index == j;
        }
    }
}

/// Expands a leaf reached by selection and steps into one of its children
/// drawn at random, unless the game on `state` is already decided or no
/// child can be added. Returns the node the playout starts from.
pub fn expand_leaf(tree: &mut Tree<MCTSNode>, node: NodeRef, state: &mut Board) -> (r: NodeRef)
    requires
        tree_ok(old(tree)),
        old(tree).has(node),
        old(state).wf(),
    ensures
        tree_ok(final(tree)),
        final(tree).has(r),
        final(tree).spec_root() == old(tree).spec_root(),
        final(state).wf(),
        final(state).spec_dims() == old(state).spec_dims(),
        old(state).spec_winner() is Some ==> r == node && final(tree)@ == old(tree)@ && final(state).cells()
            == old(state).cells(),
        r != node ==> final(tree)@[node.index as int].kids().contains(r),
        r != node ==> final(state).cells() == if legal(
            old(state).cells(),
            old(state).width(),
            old(state).height(),
            node_data(final(tree), r.index as int).action,
        ) {
            after(old(state).cells(), old(state).width(), node_data(final(tree), r.index as int).action)
        } else {
            old(state).cells()
        },
        r == node ==> final(state).cells() == old(state).cells(),
        r != node && old(tree)@[node.index as int].spec_children() is Some ==> node_data(final(tree), r.index as int).mc.count()
            == capped_sum(node_data(old(tree), r.index as int).mc.count(), 1),
        r != node && old(tree)@[node.index as int].spec_children() is None ==> node_data(final(tree), r.index as int).mc.count() == 1,
        old(state).spec_winner() is None && old(tree)@.len() + old(state).area() < usize::MAX ==> {
            &&& (r != node <==> final(tree)@[node.index as int].kids().len() > 0)
            &&& old(tree)@[node.index as int].spec_children() is None ==> final(tree)@[node.index as int].kids().len()
                == empty_count(old(state))
        },
{
    if state.winner().is_some() {
        return node;
    }
    proof {
        state.lemma_measures();
    }
    if tree.len() >= usize::MAX - state.dimensions().area() {
        return node;
    }
    let color = state.to_play();
    let ghost before = *tree;
    expand(tree, color, node, state);
    let count = tree.get(node).children().len();
    if count == 0 {
        return node;
    }
    let k = random_below(count);
    let child = tree.get(node).children()[k];
    assert(tree@[node.index as int].kids()[k as int] == child);
    let ghost kids = tree@[node.index as int].kids();
    let ghost mid = *tree;
    descend(tree, child, state);
    assert(tree@[node.index as int].kids() == kids);
    assert(kids[k as int] == child);
    proof {
        if before@[node.index as int].spec_children() is None {
            assert(node_data(&mid, child.index as int).mc.count() == 0);
        } else {
            assert(mid@ == before@);
        }
        assert(child.index != node.index);
    }
    child
}

/// Node index of the root's child number `t`.
pub open spec fn root_kid(tree: &Tree<MCTSNode>, t: int) -> int {
    tree@[tree.spec_root().index as int].kids()[t].index as int
}

/// The root's child number `t` has as many visits as any other child.
pub open spec fn most_visited(tree: &Tree<MCTSNode>, t: int) -> bool {
    &&& 0 <= t < tree@[tree.spec_root().index as int].kids().len()
    &&& forall|t2: int|
        0 <= t2 < tree@[tree.spec_root().index as int].kids().len() ==> node_data(tree, #[trigger] root_kid(tree, t2)).mc.count()
            <= node_data(tree, root_kid(tree, t)).mc.count()
}

/// The move of the most visited child of the root, ties broken at random;
/// `None` when the root has no children.
pub fn best_move(tree: &Tree<MCTSNode>) -> (r: Option<Move>)
    requires
        tree_ok(tree),
    ensures
        r is None <==> tree@[tree.spec_root().index as int].kids().len() == 0,
        r matches Some(m) ==> exists|t: int| #[trigger] most_visited(tree, t) && node_data(tree, root_kid(tree, t)).action == m,
{
    let root = tree.root();
    let kids = tree.get(root).children();
    let ghost ks = tree@[root.index as int].kids();
    if kids.len() == 0 {
        return None;
    }
    let mut max: isize = tree.get(kids[0]).data().mc.n();
    let mut t: usize = 1;
    while t < kids.len()
        invariant
            tree_ok(tree),
            kids@ == ks,
            ks == tree@[tree.spec_root().index as int].kids(),
            1 <= t <= ks.len(),
            exists|t1: int| 0 <= t1 < t && node_data(tree, ks[t1].index as int).mc.count() == max,
            forall|t2: int| 0 <= t2 < t ==> node_data(tree, (#[trigger] ks[t2]).index as int).mc.count() <= max,
        decreases ks.len() - t,
    {
        let n = tree.get(kids[t]).data().mc.n();
        if n > max {
            max = n;
        }
        t = t + 1;
    }
    let mut best: Vec<usize> = Vec::new();
    let mut t: usize = 0;
    while t < kids.len()
        invariant
            tree_ok(tree),
            kids@ == ks,
            ks == tree@[tree.spec_root().index as int].kids(),
            t <= ks.len(),
            best@.len() <= t,
            forall|j: int| 0 <= j < best@.len() ==> #[trigger] best@[j] < ks.len() && node_data(tree, ks[best@[j] as int].index as int).mc.count() == max,
            (exists|t1: int| 0 <= t1 < t && node_data(tree, ks[t1].index as int).mc.count() == max) ==> best@.len() > 0,
        decreases ks.len() - t,
    {
        if tree.get(kids[t]).data().mc.n() == max {
            best.push(t);
        }
        t = t + 1;
    }
    let pick = best[random_below(best.len())];
    assert(most_visited(tree, pick as int)) by {
        assert forall|t2: int| 0 <= t2 < ks.len() implies node_data(tree, #[trigger] root_kid(tree, t2)).mc.count()
            <= node_data(tree, root_kid(tree, pick as int)).mc.count() by {
            assert(root_kid(tree, t2) == ks[t2].index as int);
        }
    }
    Some(tree.get(kids[pick]).data().action)
}

/// The root's children include one whose move is `m`.
pub open spec fn root_has_move(tree: &Tree<MCTSNode>, m: Move) -> bool {
    exists|t: int|
        0 <= t < tree@[tree.spec_root().index as int].kids().len() && #[trigger] node_data(tree, root_kid(tree, t)).action
            == m
}

/// The root's child number `k` is the first with move `m`.
pub open spec fn first_match(tree: &Tree<MCTSNode>, m: Move, k: int) -> bool {
    &&& 0 <= k < tree@[tree.spec_root().index as int].kids().len()
    &&& node_data(tree, root_kid(tree, k)).action == m
    &&& forall|k2: int| 0 <= k2 < k ==> #[trigger] node_data(tree, root_kid(tree, k2)).action != m
}

/// A tree of one node that stands for the current position: a pass with
/// no statistics, no parent, and children not yet given.
pub open spec fn fresh_tree(tree: &Tree<MCTSNode>) -> bool {
    &&& tree@.len() == 1
    &&& tree.spec_root().index == 0
    &&& node_data(tree, 0).action == Move::Pass
    &&& node_data(tree, 0).mc.count() == 0
    &&& node_data(tree, 0).mc.total() == 0
    &&& node_data(tree, 0).rave.count() == 0
    &&& node_data(tree, 0).rave.total() == 0
    &&& tree@[0].spec_children() is None
    &&& tree@[0].spec_parent() is None
}

fn fresh() -> (r: Tree<MCTSNode>)
    ensures
        tree_ok(&r),
        fresh_tree(&r),
{
    let r = Tree::new(MCTSNode::new(Move::Pass));
    r
}

/// A player that searches with a tree it keeps across moves, the board of
/// the game, and the moves played so far.
pub struct MCTSPlayer {
    board: Board,
    tree: Tree<MCTSNode>,
    moves: Vec<Move>,
}

impl MCTSPlayer {
    pub closed spec fn wf(&self) -> bool {
        self.board.wf() && tree_ok(&self.tree)
    }

    pub closed spec fn spec_board(&self) -> Board {
        self.board
    }

    pub closed spec fn spec_tree(&self) -> Tree<MCTSNode> {
        self.tree
    }

    pub closed spec fn spec_moves(&self) -> Seq<Move> {
        self.moves@
    }

    /// A player on an empty 13 by 13 board.
    pub fn new() -> (r: MCTSPlayer)
        ensures
            r.wf(),
            r.spec_board().spec_dims() == (Pos { x: 13, y: 13 }),
            r.spec_board().cells() == Seq::new(169, |i: int| None::<Color>),
            fresh_tree(&r.spec_tree()),
            r.spec_moves().len() == 0,
    {
        MCTSPlayer { board: Board::new(Pos { x: 13, y: 13 }), tree: fresh(), moves: Vec::new() }
    }

    pub fn board(&self) -> (r: &Board)
        ensures
            *r == self.spec_board(),
            self.wf() ==> r.wf(),
    {
        &self.board
    }

    pub fn tree(&self) -> (r: &Tree<MCTSNode>)
        ensures
            *r == self.spec_tree(),
            self.wf() ==> tree_ok(r),
    {
        &self.tree
    }

    pub fn name(&self) -> (r: &'static str)
        ensures
            r@ == seq!['c', 'o', 'r', 'o', 'n', 'e', 'n', 'e', ' ', 'm', 'c', 't', 's'],
    {
        proof {
            reveal_strlit("coronene mcts");
        }
        "coronene mcts"
    }

    pub fn version(&self) -> (r: &'static str)
        ensures
            r@ == seq!['0', '.', '1'],
    {
        proof {
            reveal_strlit("0.1");
        }
        "0.1"
    }

    /// Drops the search tree.
    fn clear_tree(&mut self)
        requires
            old(self).wf(),
        ensures
            final(self).wf(),
            fresh_tree(&final(self).spec_tree()),
            final(self).spec_board() == old(self).spec_board(),
            final(self).spec_moves() == old(self).spec_moves(),
    {
        self.tree = fresh();
    }

    /// A new game on a board of `cols` columns and `rows` rows.
    pub fn set_board_size(&mut self, cols: i8, rows: i8)
        requires
            old(self).wf(),
            cols >= 0,
            rows >= 0,
        ensures
            final(self).wf(),
            final(self).spec_board().spec_dims() == (Pos { x: cols, y: rows }),
            final(self).spec_board().cells() == Seq::new((cols * rows) as nat, |i: int| None::<Color>),
            final(self).spec_board().spec_to_play() == Color::Black,
            fresh_tree(&final(self).spec_tree()),
            final(self).spec_moves().len() == 0,
    {
        self.board = Board::new(Pos { x: cols, y: rows });
        self.clear_tree();
        self.moves.clear();
    }

    /// Plays a move. A stone off the board or on an occupied cell is
    /// refused and nothing changes. Otherwise the move is recorded and
    /// played; when a child of the root has this move it becomes the root,
    /// else the tree starts afresh.
    pub fn play_move(&mut self, m: Move) -> (r: bool)
        requires
            old(self).wf(),
        ensures
            final(self).wf(),
            r == legal(
                old(self).spec_board().cells(),
                old(self).spec_board().width(),
                old(self).spec_board().height(),
                m,
            ),
            !r ==> *final(self) == *old(self),
            r ==> final(self).spec_moves() == old(self).spec_moves().push(m),
            r ==> final(self).spec_board().cells() == after(
                old(self).spec_board().cells(),
                old(self).spec_board().width(),
                m,
            ),
            r ==> final(self).spec_board().spec_dims() == old(self).spec_board().spec_dims(),
            r ==> final(self).spec_board().spec_last_move() == m,
            r ==> final(self).spec_board().spec_to_play() == match m {
                Move::Play { color, .. } => crate::coord::inverted(color),
                _ => old(self).spec_board().spec_to_play(),
            },
            r && root_has_move(&old(self).spec_tree(), m) ==> {
                let t = final(self).spec_tree();
                &&& node_data(&t, t.spec_root().index as int).action == m
                &&& t@[t.spec_root().index as int].spec_parent() is None
                &&& t.spec_root().index == 0
                &&& exists|k: int|
                    #[trigger] first_match(&old(self).spec_tree(), m, k) && exists|o: Seq<int>|
                        subtree_copy(old(self).spec_tree()@, root_kid(&old(self).spec_tree(), k), t@, o)
            },
            r && !root_has_move(&old(self).spec_tree(), m) ==> fresh_tree(&final(self).spec_tree()),
    {
        proof {
            self.board.lemma_measures();
        }
        match m {
            Move::Play { pos, .. } => {
                if !self.board.on_board(pos) || !self.board.is_empty(pos) {
                    proof {
                        if in_board(self.board.width(), self.board.height(), pos.x as int, pos.y as int) {
                            lemma_index(self.board.width(), self.board.height(), pos.x as int, pos.y as int);
                        }
                    }
                    return false;
                }
                proof {
                    lemma_index(self.board.width(), self.board.height(), pos.x as int, pos.y as int);
                }
            },
            _ => {},
        }
        let root = self.tree.root();
        let count = self.tree.get(root).children().len();
        let mut t: usize = 0;
        let mut found: Option<NodeRef> = None;
        while t < count
            invariant
                tree_ok(&self.tree),
                root == self.tree.spec_root(),
                count == self.tree@[root.index as int].kids().len(),
                t <= count,
                forall|t2: int| 0 <= t2 < t ==> #[trigger] node_data(&self.tree, root_kid(&self.tree, t2)).action != m,
                found matches Some(f) ==> self.tree.has(f) && node_data(&self.tree, f.index as int).action == m
                    && t < count && root_kid(&self.tree, t as int) == f.index,
            ensures
                tree_ok(&self.tree),
                root == self.tree.spec_root(),
                count == self.tree@[root.index as int].kids().len(),
                found is None ==> forall|t2: int| 0 <= t2 < count ==> #[trigger] node_data(&self.tree, root_kid(&self.tree, t2)).action != m,
                forall|t2: int| 0 <= t2 < t ==> #[trigger] node_data(&self.tree, root_kid(&self.tree, t2)).action != m,
                found is None ==> t == count,
                found matches Some(f) ==> self.tree.has(f) && node_data(&self.tree, f.index as int).action == m
                    && t < count && root_kid(&self.tree, t as int) == f.index,
            decreases count - t,
        {
            let child = self.tree.get(root).children()[t];
            if self.tree.get(child).data().action == m {
                found = Some(child);
                break;
            }
            t = t + 1;
        }
        match found {
            Some(child) => {
                assert(root_has_move(&self.tree, m));
                assert(first_match(&self.tree, m, t as int));
                self.tree.reroot(child);
                assert forall|i: int| 0 <= i < self.tree@.len() implies (#[trigger] self.tree@[i].spec_data()).wf() by {
                    let j = choose|j: int| 0 <= j < old(self).tree@.len() && self.tree@[i].spec_data() == old(self).tree@[j].spec_data();
                    assert(old(self).tree@[j].spec_data().wf());
                }
            },
            None => {
                assert(!root_has_move(&self.tree, m));
                self.clear_tree();
            },
        }
        self.moves.push(m);
        let ok = self.board.play(m);
        ok
    }

    /// Takes back the last move. Taking back a stone empties its cell and
    /// drops the search tree; a pass or a resignation is only forgotten.
    pub fn undo(&mut self)
        requires
            old(self).wf(),
        ensures
            final(self).wf(),
            final(self).spec_board().spec_dims() == old(self).spec_board().spec_dims(),
            old(self).spec_moves().len() == 0 ==> *final(self) == *old(self),
            old(self).spec_moves().len() > 0 ==> final(self).spec_moves() == old(self).spec_moves().drop_last(),
            old(self).spec_moves().len() > 0 ==> match old(self).spec_moves().last() {
                Move::Play { pos, .. } => {
                    &&& in_board(
                        old(self).spec_board().width(),
                        old(self).spec_board().height(),
                        pos.x as int,
                        pos.y as int,
                    ) ==> final(self).spec_board().cells() == old(self).spec_board().cells().update(
                        cell_index(old(self).spec_board().width(), pos),
                        None,
                    )
                    &&& fresh_tree(&final(self).spec_tree())
                },
                _ => final(self).spec_board() == old(self).spec_board() && final(self).spec_tree() == old(
                    self,
                ).spec_tree(),
            },
    {
        if self.moves.len() == 0 {
            return;
        }
        match self.moves.pop() {
            Some(Move::Play { pos, .. }) => {
                self.board.clear_cell(pos);
                self.clear_tree();
            },
            _ => {},
        }
    }

    /// Readies a search for `color`: false when the game is already won.
    /// When `color` is not the side to move, it becomes so and the tree
    /// starts afresh.
    pub fn prepare_search(&mut self, color: Color) -> (r: bool)
        requires
            old(self).wf(),
        ensures
            final(self).wf(),
            r == (old(self).spec_board().spec_winner() is None),
            !r ==> *final(self) == *old(self),
            r ==> final(self).spec_board().spec_to_play() == color,
            r ==> final(self).spec_board().cells() == old(self).spec_board().cells(),
            r ==> final(self).spec_board().spec_dims() == old(self).spec_board().spec_dims(),
            r ==> final(self).spec_moves() == old(self).spec_moves(),
            r && color != old(self).spec_board().spec_to_play() ==> fresh_tree(&final(self).spec_tree()),
            r && color == old(self).spec_board().spec_to_play() ==> final(self).spec_tree() == old(self).spec_tree(),
    {
        if self.board.winner().is_some() {
            return false;
        }
        if color != self.board.to_play() {
            self.board.set_to_play(color);
            self.clear_tree();
        }
        true
    }

    /// Ends a search: plays the move of the most visited child of the root
    /// and returns it, or resigns when the root has no children.
    pub fn finish_search(&mut self) -> (r: Move)
        requires
            old(self).wf(),
        ensures
            final(self).wf(),
            old(self).spec_tree()@[old(self).spec_tree().spec_root().index as int].kids().len() == 0 ==> r is Resign
                && *final(self) == *old(self),
            r !is Resign && legal(
                old(self).spec_board().cells(),
                old(self).spec_board().width(),
                old(self).spec_board().height(),
                r,
            ) ==> final(self).spec_moves() == old(self).spec_moves().push(r) && final(self).spec_board().cells() == after(
                old(self).spec_board().cells(),
                old(self).spec_board().width(),
                r,
            ),
            old(self).spec_tree()@[old(self).spec_tree().spec_root().index as int].kids().len() > 0 ==> exists|t: int|
                #[trigger] most_visited(&old(self).spec_tree(), t) && node_data(
                    &old(self).spec_tree(),
                    root_kid(&old(self).spec_tree(), t),
                ).action == r,
    {
        match best_move(&self.tree) {
            Some(m) => {
                self.play_move(m);
                m
            },
            None => Move::Resign,
        }
    }

    /// Counts a visit of `node` in the player's tree.
    pub fn visit(&mut self, node: NodeRef)
        requires
            old(self).wf(),
            old(self).spec_tree().has(node),
        ensures
            final(self).wf(),
            same_shape(&old(self).spec_tree(), &final(self).spec_tree()),
            final(self).spec_board() == old(self).spec_board(),
            final(self).spec_moves() == old(self).spec_moves(),
            node_data(&final(self).spec_tree(), node.index as int).mc.count() == capped_sum(
                node_data(&old(self).spec_tree(), node.index as int).mc.count(),
                1,
            ),
            forall|i: int|
                0 <= i < old(self).spec_tree()@.len() && i != node.index ==> #[trigger] node_data(&final(self).spec_tree(), i)
                    == node_data(&old(self).spec_tree(), i),
    {
        visit_node(&mut self.tree, node);
    }

    /// Steps into `child` on `state` during selection; see `descend`.
    pub fn descend(&mut self, child: NodeRef, state: &mut Board) -> (fresh: bool)
        requires
            old(self).wf(),
            old(self).spec_tree().has(child),
            old(state).wf(),
        ensures
            final(self).wf(),
            same_shape(&old(self).spec_tree(), &final(self).spec_tree()),
            final(self).spec_board() == old(self).spec_board(),
            final(self).spec_moves() == old(self).spec_moves(),
            node_data(&final(self).spec_tree(), child.index as int).mc.count() == capped_sum(
                node_data(&old(self).spec_tree(), child.index as int).mc.count(),
                1,
            ),
            fresh == (node_data(&final(self).spec_tree(), child.index as int).mc.count() == 1),
            final(state).wf(),
            final(state).spec_dims() == old(state).spec_dims(),
            final(state).cells() == if legal(
                old(state).cells(),
                old(state).width(),
                old(state).height(),
                node_data(&old(self).spec_tree(), child.index as int).action,
            ) {
                after(old(state).cells(), old(state).width(), node_data(&old(self).spec_tree(), child.index as int).action)
            } else {
                old(state).cells()
            },
    {
        descend(&mut self.tree, child, state)
    }

    /// Expands the leaf `node` on `state`; see `expand_leaf`.
    pub fn expand_leaf(&mut self, node: NodeRef, state: &mut Board) -> (r: NodeRef)
        requires
            old(self).wf(),
            old(self).spec_tree().has(node),
            old(state).wf(),
        ensures
            final(self).wf(),
            final(self).spec_tree().has(r),
            final(self).spec_board() == old(self).spec_board(),
            final(self).spec_moves() == old(self).spec_moves(),
            final(state).wf(),
            final(state).spec_dims() == old(state).spec_dims(),
            old(state).spec_winner() is Some ==> r == node && final(self).spec_tree()@ == old(self).spec_tree()@
                && final(state).cells() == old(state).cells(),
            r != node ==> final(self).spec_tree()@[node.index as int].kids().contains(r),
            r != node ==> final(state).cells() == if legal(
                old(state).cells(),
                old(state).width(),
                old(state).height(),
                node_data(&final(self).spec_tree(), r.index as int).action,
            ) {
                after(old(state).cells(), old(state).width(), node_data(&final(self).spec_tree(), r.index as int).action)
            } else {
                old(state).cells()
            },
            r == node ==> final(state).cells() == old(state).cells(),
            old(state).spec_winner() is None && old(self).spec_tree()@.len() + old(state).area() < usize::MAX ==> {
                &&& (r != node <==> final(self).spec_tree()@[node.index as int].kids().len() > 0)
                &&& old(self).spec_tree()@[node.index as int].spec_children() is None ==> final(self).spec_tree()@[node.index
                    as int].kids().len() == empty_count(old(state))
            },
    {
        expand_leaf(&mut self.tree, node, state)
    }

    /// Backs a playout's outcome up from `node`; see `back_up`.
    pub fn back_up(&mut self, node: NodeRef, outcome: Option<Color>, endgame: &Board)
        requires
            old(self).wf(),
            old(self).spec_tree().has(node),
            endgame.wf(),
        ensures
            final(self).wf(),
            same_shape(&old(self).spec_tree(), &final(self).spec_tree()),
            final(self).spec_board() == old(self).spec_board(),
            final(self).spec_moves() == old(self).spec_moves(),
            backed_up(&old(self).spec_tree(), &final(self).spec_tree(), node.index as int, outcome, endgame),
    {
        back_up(&mut self.tree, node, outcome, endgame)
    }
}

} // verus!
