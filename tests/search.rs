use coronene::board::Board;
use coronene::coord::{Color, Move, Pos};
use coronene::graph::{NodeRef, Tree};
use coronene::mcts::{
    back_up, best_move, descend, expand, expand_leaf, must_play, must_play_from, roll_out, visit_node, MCTSNode,
    MCTSPlayer, Stats,
};

fn put(b: &mut Board, c: Color, s: &str) {
    assert!(b.play(Move::new(c, Pos::parse(s).unwrap())));
}

fn stones(b: &Board) -> usize {
    b.filled_cells().len()
}

#[test]
fn stats_count_and_saturate() {
    let mut s = Stats::new();
    assert_eq!((s.n(), s.q()), (0, 0));
    s.visit(1);
    s.visit(2);
    s.reward(1);
    assert_eq!((s.n(), s.q()), (3, 1));
    s.visit(isize::MAX);
    assert_eq!(s.n(), isize::MAX);
    s.reward(0);
    assert_eq!(s.q(), 1);
}

#[test]
fn node_data_starts_at_zero() {
    let d = MCTSNode::new(Move::Pass);
    assert_eq!(d.action, Move::Pass);
    assert_eq!((d.mc.n(), d.mc.q(), d.rave.n(), d.rave.q()), (0, 0, 0, 0));
}

#[test]
fn save_the_bridge() {
    // b2 = (1,1) and c3 = (2,2) share the empty neighbours c2 = (2,1) and b3 = (1,2).
    let mut b = Board::new(Pos::new(5, 5));
    put(&mut b, Color::Black, "b2");
    put(&mut b, Color::White, "e5");
    put(&mut b, Color::Black, "c3");
    put(&mut b, Color::White, "b3");
    assert_eq!(b.to_play(), Color::Black);
    for start in 0..6 {
        assert_eq!(must_play_from(&b, start), Move::new(Color::Black, Pos::new(2, 1)));
    }
    assert_eq!(must_play(&b), Move::new(Color::Black, Pos::new(2, 1)));
}

#[test]
fn no_bridge_to_save() {
    let mut b = Board::new(Pos::new(5, 5));
    put(&mut b, Color::Black, "b2");
    put(&mut b, Color::White, "c2");
    for start in 0..6 {
        assert_eq!(must_play_from(&b, start), Move::Pass);
    }
    let fresh = Board::new(Pos::new(5, 5));
    assert_eq!(must_play_from(&fresh, 0), Move::Pass);
}

#[test]
fn finished_game_forces_resign() {
    let mut b = Board::new(Pos::new(2, 2));
    put(&mut b, Color::Black, "a1");
    put(&mut b, Color::Black, "a2");
    assert_eq!(b.winner(), Some(Color::Black));
    assert_eq!(must_play_from(&b, 3), Move::Resign);
}

#[test]
fn rollout_finishes_the_game() {
    for _ in 0..20 {
        let mut b = Board::new(Pos::new(5, 5));
        put(&mut b, Color::Black, "c3");
        let outcome = roll_out(&mut b);
        assert!(outcome.is_some());
        assert_eq!(outcome, b.winner());
        assert_eq!(b.get(Pos::new(2, 2)), Some(Color::Black));
        assert!(stones(&b) <= 25);
    }
}

#[test]
fn rollout_on_a_won_board_changes_nothing() {
    let mut b = Board::new(Pos::new(3, 3));
    for s in ["a1", "b1", "c1"] {
        put(&mut b, Color::White, s);
    }
    assert_eq!(roll_out(&mut b), Some(Color::White));
    assert_eq!(stones(&b), 3);
}

#[test]
fn expansion_is_one_shot() {
    let board = Board::new(Pos::new(3, 3));
    let mut tree = Tree::new(MCTSNode::new(Move::Pass));
    let root = tree.root();
    assert!(expand(&mut tree, Color::Black, root, &board));
    assert!(!expand(&mut tree, Color::Black, root, &board));
    let kids = tree.get(root).children();
    assert_eq!(kids.len(), 9);
    assert_eq!(tree.len(), 10);
    assert_eq!(tree.get(kids[0]).data().action, Move::new(Color::Black, Pos::new(0, 0)));
    assert_eq!(tree.get(kids[8]).data().action, Move::new(Color::Black, Pos::new(2, 2)));
    assert_eq!(tree.get(kids[4]).parent().map(|p| p.upgrade()), Some(root));
}

fn tree_with_children(n: usize) -> (Tree<MCTSNode>, Vec<NodeRef>) {
    let mut tree = Tree::new(MCTSNode::new(Move::Pass));
    let root = tree.root();
    let mut data = Vec::new();
    for i in 0..n {
        data.push(MCTSNode::new(Move::new(Color::Black, Pos::new(i as i8, 0))));
    }
    assert!(root.add_children(&mut tree, data));
    let kids = tree.get(root).children().to_vec();
    (tree, kids)
}

fn set_visits(tree: &mut Tree<MCTSNode>, node: NodeRef, n: isize) {
    let mut d = *tree.get(node).data();
    d.mc.visit(n);
    tree.set_data(node, d);
}

#[test]
fn best_move_prefers_most_visited() {
    let (mut tree, kids) = tree_with_children(5);
    set_visits(&mut tree, kids[0], 50);
    set_visits(&mut tree, kids[1], 12);
    set_visits(&mut tree, kids[2], 100);
    set_visits(&mut tree, kids[3], 50);
    for _ in 0..10 {
        assert_eq!(best_move(&tree), Some(Move::new(Color::Black, Pos::new(2, 0))));
    }
    let lone = Tree::new(MCTSNode::new(Move::Pass));
    assert_eq!(best_move(&lone), None);
}

#[test]
fn descend_counts_a_virtual_loss_and_plays() {
    let (mut tree, kids) = tree_with_children(3);
    let mut b = Board::new(Pos::new(3, 3));
    assert!(descend(&mut tree, kids[1], &mut b));
    assert_eq!(b.get(Pos::new(1, 0)), Some(Color::Black));
    assert_eq!(tree.get(kids[1]).data().mc.n(), 1);
    let mut b2 = Board::new(Pos::new(3, 3));
    assert!(!descend(&mut tree, kids[1], &mut b2));
    assert_eq!(tree.get(kids[1]).data().mc.n(), 2);
    visit_node(&mut tree, kids[0]);
    assert_eq!(tree.get(kids[0]).data().mc.n(), 1);
}

#[test]
fn expand_leaf_steps_into_a_new_child() {
    let mut tree = Tree::new(MCTSNode::new(Move::Pass));
    let root = tree.root();
    let mut b = Board::new(Pos::new(2, 2));
    let leaf = expand_leaf(&mut tree, root, &mut b);
    assert_ne!(leaf, root);
    assert_eq!(tree.get(root).children().len(), 4);
    assert_eq!(tree.get(leaf).data().mc.n(), 1);
    assert_eq!(stones(&b), 1);
    let mut won = Board::new(Pos::new(1, 1));
    put(&mut won, Color::Black, "a1");
    let mut t2 = Tree::new(MCTSNode::new(Move::Pass));
    let r2 = t2.root();
    assert_eq!(expand_leaf(&mut t2, r2, &mut won), r2);
    assert_eq!(t2.len(), 1);
}

#[test]
fn back_up_rewards_the_winner_and_credits_rave() {
    // root -> a1 (Black) -> b1 (White); the playout ends with Black a1, White b1, Black c1.
    let mut tree = Tree::new(MCTSNode::new(Move::Pass));
    let root = tree.root();
    assert!(root.add_children(
        &mut tree,
        vec![
            MCTSNode::new(Move::new(Color::Black, Pos::new(0, 0))),
            MCTSNode::new(Move::new(Color::Black, Pos::new(2, 0))),
            MCTSNode::new(Move::new(Color::Black, Pos::new(1, 1))),
        ]
    ));
    let a1 = tree.get(root).children()[0];
    let c1 = tree.get(root).children()[1];
    let b2 = tree.get(root).children()[2];
    assert!(a1.add_children(&mut tree, vec![MCTSNode::new(Move::new(Color::White, Pos::new(1, 0)))]));
    let b1 = tree.get(a1).children()[0];
    let mut end = Board::new(Pos::new(3, 3));
    put(&mut end, Color::Black, "a1");
    put(&mut end, Color::White, "b1");
    put(&mut end, Color::Black, "c1");
    back_up(&mut tree, b1, Some(Color::Black), &end);
    assert_eq!(tree.get(b1).data().mc.q(), 0);
    assert_eq!(tree.get(a1).data().mc.q(), 1);
    assert_eq!(tree.get(root).data().mc.q(), 0);
    assert_eq!((tree.get(a1).data().rave.n(), tree.get(a1).data().rave.q()), (1, 1));
    assert_eq!((tree.get(c1).data().rave.n(), tree.get(c1).data().rave.q()), (1, 1));
    assert_eq!((tree.get(b2).data().rave.n(), tree.get(b2).data().rave.q()), (0, 0));
    assert_eq!((tree.get(b1).data().rave.n(), tree.get(b1).data().rave.q()), (1, 0));
}

#[test]
fn playing_a_tree_move_reroots() {
    let mut p = MCTSPlayer::new();
    p.set_board_size(3, 3);
    assert!(p.prepare_search(Color::Black));
    let root = p.tree().root();
    let mut state = p.board().clone();
    let leaf = p.expand_leaf(root, &mut state);
    assert_ne!(leaf, root);
    let m = Move::new(Color::Black, Pos::new(1, 1));
    assert!(p.play_move(m));
    let new_root = p.tree().root();
    assert_eq!(p.tree().get(new_root).data().action, m);
    assert!(p.tree().get(new_root).parent().is_none());
    assert!(p.play_move(Move::new(Color::White, Pos::new(0, 0))));
    assert_eq!(p.tree().len(), 1);
    assert_eq!(p.tree().get(p.tree().root()).data().action, Move::Pass);
}

#[test]
fn rejected_play_changes_nothing() {
    let mut p = MCTSPlayer::new();
    p.set_board_size(3, 3);
    assert!(p.play_move(Move::new(Color::Black, Pos::new(0, 0))));
    assert!(!p.play_move(Move::new(Color::White, Pos::new(0, 0))));
    assert!(!p.play_move(Move::new(Color::White, Pos::new(5, 0))));
    p.undo();
    assert_eq!(p.board().get(Pos::new(0, 0)), None);
    p.undo();
    assert_eq!(p.board().filled_cells().len(), 0);
}

#[test]
fn undo_restores_the_board() {
    let mut p = MCTSPlayer::new();
    p.set_board_size(4, 4);
    for (c, s) in [(Color::Black, "a1"), (Color::White, "b2"), (Color::Black, "a2"), (Color::White, "c2")] {
        assert!(p.play_move(Move::new(c, Pos::parse(s).unwrap())));
    }
    let cells = p.board().filled_cells();
    let winner = p.board().winner();
    assert!(p.play_move(Move::new(Color::Black, Pos::parse("a3").unwrap())));
    p.undo();
    assert_eq!(p.board().filled_cells(), cells);
    assert_eq!(p.board().winner(), winner);
    assert!(p.play_move(Move::Pass));
    p.undo();
    assert_eq!(p.board().filled_cells(), cells);
}

#[test]
fn undo_after_a_win() {
    let mut p = MCTSPlayer::new();
    p.set_board_size(2, 2);
    assert!(p.play_move(Move::new(Color::White, Pos::new(0, 0))));
    assert!(p.play_move(Move::new(Color::White, Pos::new(1, 0))));
    assert_eq!(p.board().winner(), Some(Color::White));
    p.undo();
    assert_eq!(p.board().winner(), None);
}

#[test]
fn a_short_search_picks_a_legal_move() {
    let mut p = MCTSPlayer::new();
    p.set_board_size(3, 3);
    assert!(p.prepare_search(Color::Black));
    for _ in 0..200 {
        let root = p.tree().root();
        let mut state = p.board().clone();
        p.visit(root);
        let mut node = root;
        let mut stop = false;
        while !stop && p.tree().get(node).children().len() > 0 {
            let kids = p.tree().get(node).children().to_vec();
            let mut best = kids[0];
            for k in kids {
                if p.tree().get(k).data().mc.n() < p.tree().get(best).data().mc.n() {
                    best = k;
                }
            }
            stop = p.descend(best, &mut state);
            node = best;
        }
        if !stop {
            node = p.expand_leaf(node, &mut state);
        }
        let outcome = roll_out(&mut state);
        p.back_up(node, outcome, &state);
    }
    let m = p.finish_search();
    assert!(matches!(m, Move::Play { color: Color::Black, .. }));
    assert_eq!(p.board().filled_cells().len(), 1);
    assert_eq!(p.board().to_play(), Color::White);
}

#[test]
fn won_game_is_not_searched() {
    let mut p = MCTSPlayer::new();
    p.set_board_size(1, 1);
    assert!(p.play_move(Move::new(Color::Black, Pos::new(0, 0))));
    assert!(!p.prepare_search(Color::White));
    assert_eq!(p.name(), "coronene mcts");
    assert_eq!(p.version(), "0.1");
}

#[test]
fn tree_size_and_edges_count_expanded_nodes() {
    let (mut tree, kids) = tree_with_children(3);
    let root = tree.root();
    assert_eq!(tree.tree_size(root), 0);
    assert!(tree.expanded_edges(root).is_empty());
    assert!(kids[1].add_children(&mut tree, vec![MCTSNode::new(Move::Pass), MCTSNode::new(Move::Resign)]));
    let grandchild = tree.get(kids[1]).children()[1];
    assert!(grandchild.add_children(&mut tree, vec![MCTSNode::new(Move::Pass)]));
    assert_eq!(tree.tree_size(root), 2);
    assert_eq!(tree.tree_size(kids[1]), 1);
    assert_eq!(
        tree.expanded_edges(root),
        vec![(root.index, kids[1].index), (kids[1].index, grandchild.index)]
    );
    assert!(!kids[1].add_children(&mut tree, vec![MCTSNode::new(Move::Pass)]));
}

#[test]
fn reroot_keeps_only_the_subtree() {
    let (mut tree, kids) = tree_with_children(4);
    assert!(kids[2].add_children(&mut tree, vec![MCTSNode::new(Move::Pass), MCTSNode::new(Move::Resign)]));
    assert!(kids[0].add_children(&mut tree, vec![MCTSNode::new(Move::Pass)]));
    assert_eq!(tree.len(), 8);
    tree.reroot(kids[2]);
    assert_eq!(tree.len(), 3);
    let root = tree.root();
    assert_eq!(root.index, 0);
    assert_eq!(tree.get(root).data().action, Move::new(Color::Black, Pos::new(2, 0)));
    assert!(tree.get(root).parent().is_none());
    let below = tree.get(root).children().to_vec();
    assert_eq!(below.len(), 2);
    assert_eq!(tree.get(below[0]).data().action, Move::Pass);
    assert_eq!(tree.get(below[1]).data().action, Move::Resign);
    assert_eq!(tree.get(below[1]).parent().map(|p| p.upgrade()), Some(root));
}

#[test]
fn nodes_change_in_place() {
    let (mut tree, kids) = tree_with_children(2);
    tree.get_mut(kids[1]).data_mut().mc.visit(7);
    assert_eq!(tree.get(kids[1]).data().mc.n(), 7);
    assert_eq!(tree.get(kids[0]).data().mc.n(), 0);
    assert!(tree.get(kids[1]).parent().is_some());
    tree.get_mut(kids[1]).orphan();
    assert!(tree.get(kids[1]).parent().is_none());
    assert_eq!(tree.get(tree.root()).children().len(), 2);
}

#[test]
fn rollout_stones_alternate_from_the_side_to_move() {
    for _ in 0..20 {
        let mut b = Board::new(Pos::new(4, 4));
        put(&mut b, Color::Black, "b2");
        assert_eq!(b.to_play(), Color::White);
        roll_out(&mut b);
        let stones = b.filled_cells();
        let white = stones.iter().filter(|m| m.color() == Some(Color::White)).count();
        let black = stones.iter().filter(|m| m.color() == Some(Color::Black)).count() - 1;
        assert!(white == black || white == black + 1);
        let expected = if white == black { Color::White } else { Color::Black };
        assert_eq!(b.to_play(), expected);
    }
}
