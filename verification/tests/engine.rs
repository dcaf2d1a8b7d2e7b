use std::collections::VecDeque;
use teros_engine::arrange::arrange;
use teros_engine::board::Board;
use teros_engine::chess::{BoardError, ChessMove, Color, GameEnd, NormalChessMove, Piece, PieceKind};
use teros_engine::expansion::{gather, Tried};
use teros_engine::choice::pick_best;
use teros_engine::engine::Engine;
use teros_engine::eval::Eval;
use teros_engine::minimax::minimax;
use teros_engine::score::Score;
use teros_engine::tree::MoveTree;
use teros_engine::weights::{
    EngineError, InterestEvaluationWeights, MinimaxSettings, StaticEvaluationWeights,
};

const W: Color = Color::White;
const B: Color = Color::Black;

fn normal(r0: usize, c0: usize, r1: usize, c1: usize) -> ChessMove {
    ChessMove::Normal(NormalChessMove {
        initial_row: r0,
        initial_col: c0,
        destination_row: r1,
        destination_col: c1,
    })
}

/// The pieces of the starting position whose moves the tests play, with
/// `moved` applied: pawns on rows 1 and 6, knights on the back ranks.
fn position(turn: Color, moved: &[ChessMove], end: Option<GameEnd>) -> Board {
    let mut squares: Vec<Option<Piece>> = vec![None; 64];
    for c in 0..8 {
        squares[8 + c] = Some(Piece { kind: PieceKind::Pawn, color: W });
        squares[48 + c] = Some(Piece { kind: PieceKind::Pawn, color: B });
    }
    for c in [1, 6] {
        squares[c] = Some(Piece { kind: PieceKind::Knight, color: W });
        squares[56 + c] = Some(Piece { kind: PieceKind::Knight, color: B });
    }
    for m in moved {
        if let ChessMove::Normal(n) = m {
            let piece = squares[n.initial_row * 8 + n.initial_col].take();
            squares[n.destination_row * 8 + n.destination_col] = piece;
        }
    }
    let check = match end {
        Some(GameEnd::Mated(color)) => Some(color),
        _ => None,
    };
    Board::from_parts(squares, vec![Vec::new(); 64], turn, check, end).unwrap()
}

fn white_moves() -> Vec<ChessMove> {
    let mut moves = Vec::new();
    for c in 0..8 {
        moves.push(normal(1, c, 2, c));
        moves.push(normal(1, c, 3, c));
    }
    for (c, to) in [(1, [0, 2]), (6, [5, 7])] {
        for t in to {
            moves.push(normal(0, c, 2, t));
        }
    }
    moves
}

fn black_moves() -> Vec<ChessMove> {
    let mut moves = Vec::new();
    for c in 0..8 {
        moves.push(normal(6, c, 5, c));
        moves.push(normal(6, c, 4, c));
    }
    for (c, to) in [(1, [0, 2]), (6, [5, 7])] {
        for t in to {
            moves.push(normal(7, c, 5, t));
        }
    }
    moves
}

fn children(turn_after: Color, played: &[ChessMove], moves: &[ChessMove]) -> Vec<(ChessMove, Board)> {
    moves
        .iter()
        .map(|m| {
            let mut line = played.to_vec();
            line.push(*m);
            (*m, position(turn_after, &line, None))
        })
        .collect()
}

fn engine() -> Engine {
    Engine::unexpanded(
        position(W, &[], None),
        StaticEvaluationWeights::new(),
        InterestEvaluationWeights::new(),
        MinimaxSettings::new(),
    )
}

fn started() -> Engine {
    Engine::new(
        position(W, &[], None),
        children(B, &[], &white_moves()),
        StaticEvaluationWeights::new(),
        InterestEvaluationWeights::new(),
        MinimaxSettings::new(),
    )
    .unwrap()
}

fn path(moves: &[ChessMove]) -> VecDeque<ChessMove> {
    VecDeque::from(moves.to_vec())
}

fn drain(engine: &mut Engine) -> Vec<VecDeque<ChessMove>> {
    let mut paths = Vec::new();
    while let Ok(p) = engine.think_next_move() {
        paths.push(p);
    }
    paths
}

#[test]
fn a_new_engine_has_its_root_expanded() {
    let engine = started();
    assert_eq!(engine.get_tree().moves.len(), 20);
    assert_eq!(engine.frontier_len(), 20);
    assert_eq!(engine.awaited_len(), 0);
    for e in engine.print_moves() {
        assert!(e.location.is_empty());
        assert_eq!(e.depth_cost, 15_000);
    }
    let bad = vec![(normal(4, 4, 5, 4), position(B, &[], None))];
    let refused = Engine::new(
        position(W, &[], None),
        bad,
        StaticEvaluationWeights::new(),
        InterestEvaluationWeights::new(),
        MinimaxSettings::new(),
    );
    assert_eq!(refused.err(), Some(EngineError::IllegalMoveError));
    let ended = Engine::new(
        position(W, &[], Some(GameEnd::StaleMate)),
        Vec::new(),
        StaticEvaluationWeights::new(),
        InterestEvaluationWeights::new(),
        MinimaxSettings::new(),
    )
    .unwrap();
    assert!(ended.get_tree().is_leaf());
    assert_eq!(ended.frontier_len(), 0);
    assert_eq!(ended.awaited_len(), 0);
}

#[test]
fn an_unexpanded_engine_awaits_the_moves_of_its_root() {
    let mut engine = engine();
    assert_eq!(engine.frontier_len(), 0);
    assert_eq!(engine.awaited_len(), 1);
    assert!(engine.is_awaited(&path(&[])));
    assert!(engine.get_tree().is_leaf());
    assert_eq!(engine.get_board().get_turn(), W);
    assert_eq!(engine.think_next_move(), Err(EngineError::NoValidMovesErrror));
}

#[test]
fn start_position_one_expansion() {
    let engine = &mut started();
    assert_eq!(engine.get_tree().moves.len(), 20);
    assert_eq!(engine.frontier_len(), 20);
    assert_eq!(engine.awaited_len(), 0);
    let moves = white_moves();
    let paths = drain(engine);
    assert_eq!(paths.len(), 20);
    for p in &paths {
        // The location of each expansion was empty: its path is its move.
        assert_eq!(p.len(), 1);
        assert!(moves.contains(&p[0]));
    }
    for m in &moves {
        assert!(paths.contains(&path(&[*m])));
    }
}

#[test]
fn children_stand_in_the_order_of_their_moves() {
    let engine = started();
    let keys: Vec<ChessMove> = engine.get_tree().moves.iter().map(|(m, _)| *m).collect();
    for pair in keys.windows(2) {
        assert!(pair[0].is_before(&pair[1]));
    }
    for (m, child) in &engine.get_tree().moves {
        assert!(child.is_leaf());
        assert_eq!(child.board_state.get_turn(), B);
        if let ChessMove::Normal(n) = m {
            assert!(child.board_state.get_piece(n.initial_row, n.initial_col).unwrap().is_none());
            assert!(child.board_state.get_piece(n.destination_row, n.destination_col).unwrap().is_some());
        }
    }
}

#[test]
fn the_most_interesting_move_comes_first() {
    let mut engine = started();
    // A knight move has the interest 7, a pawn move from its home row 3.5: no
    // pawn is past. Of moves with the same interest the one that is last in
    // the order of moves comes first.
    let first = engine.think_next_move().unwrap();
    assert_eq!(first, path(&[normal(0, 6, 2, 7)]));
    assert!(engine.is_awaited(&first));
    assert_eq!(engine.frontier_len(), 19);
    let rest = drain(&mut engine);
    assert_eq!(rest[0], path(&[normal(0, 6, 2, 5)]));
    assert_eq!(rest[2], path(&[normal(0, 1, 2, 0)]));
    assert_eq!(rest[3], path(&[normal(1, 7, 3, 7)]));
    assert_eq!(rest[4], path(&[normal(1, 7, 2, 7)]));
    assert_eq!(rest[17], path(&[normal(1, 0, 3, 0)]));
    assert_eq!(rest[18], path(&[normal(1, 0, 2, 0)]));
    assert_eq!(engine.awaited_len(), 20);
}

#[test]
fn depth_costs_interest() {
    let mut engine = started();
    let first = engine.think_next_move().unwrap();
    let played = [first[0]];
    engine.generate_all_moves(&first, children(W, &played, &black_moves())).unwrap();
    assert_eq!(engine.frontier_len(), 39);
    assert_eq!(engine.awaited_len(), 0);
    // The replies stand one move deep, which costs 15: every move at the root
    // comes before them.
    let paths = drain(&mut engine);
    for p in &paths[..19] {
        assert_eq!(p.len(), 1);
    }
    for p in &paths[19..] {
        assert_eq!(p.len(), 2);
        assert_eq!(p[0], first[0]);
    }
}

#[test]
fn only_an_awaited_node_takes_children() {
    let mut engine = started();
    let e2e4 = normal(1, 4, 3, 4);
    assert_eq!(
        engine.generate_all_moves(&path(&[]), children(B, &[], &white_moves())),
        Err(EngineError::InvalidLocationError)
    );
    assert_eq!(
        engine.generate_all_moves(&path(&[e2e4]), children(W, &[e2e4], &black_moves())),
        Err(EngineError::InvalidLocationError)
    );
    assert_eq!(
        engine.generate_all_moves(&path(&[normal(5, 5, 4, 4)]), Vec::new()),
        Err(EngineError::InvalidLocationError)
    );
    assert_eq!(engine.frontier_len(), 20);
    assert_eq!(engine.get_tree().moves.len(), 20);
    let first = engine.think_next_move().unwrap();
    let played = [first[0]];
    assert_eq!(engine.generate_all_moves(&first, children(W, &played, &black_moves())), Ok(()));
    assert_eq!(
        engine.generate_all_moves(&first, children(W, &played, &black_moves())),
        Err(EngineError::InvalidLocationError)
    );
    assert_eq!(engine.frontier_len(), 39);
}

#[test]
fn a_move_that_cannot_be_played_is_refused() {
    let mut engine = engine();
    let mut bad = children(B, &[], &white_moves());
    // Nothing stands on row 4.
    bad.push((normal(4, 4, 5, 4), position(B, &[], None)));
    assert_eq!(engine.generate_all_moves(&path(&[]), bad), Err(EngineError::IllegalMoveError));
    assert_eq!(engine.frontier_len(), 0);
    assert!(engine.get_tree().is_leaf());
    assert!(engine.is_awaited(&path(&[])));
    let off = vec![(normal(1, 0, 8, 0), position(B, &[], None))];
    assert_eq!(engine.generate_all_moves(&path(&[]), off), Err(EngineError::IllegalMoveError));
    assert_eq!(engine.generate_all_moves(&path(&[]), children(B, &[], &white_moves())), Ok(()));
    assert_eq!(engine.frontier_len(), 20);
}

#[test]
fn of_a_move_given_twice_the_later_position_counts() {
    let mut engine = engine();
    let e2e4 = normal(1, 4, 3, 4);
    let d2d4 = normal(1, 3, 3, 3);
    // The first position for e2e4 could not be valued: it is not looked at.
    let given = vec![
        (e2e4, position(B, &[e2e4], Some(GameEnd::StaleMate))),
        (d2d4, position(B, &[d2d4], None)),
        (e2e4, position(B, &[e2e4], Some(GameEnd::Mated(B)))),
    ];
    assert_eq!(engine.generate_all_moves(&path(&[]), given), Ok(()));
    let tree = engine.get_tree();
    assert_eq!(tree.moves.len(), 2);
    assert_eq!(tree.moves[0].0, d2d4);
    assert_eq!(tree.moves[1].0, e2e4);
    assert_eq!(tree.moves[1].1.board_state.is_checkmate(), Some(GameEnd::Mated(B)));
    assert_eq!(engine.frontier_len(), 2);
    // The mating move is infinitely interesting.
    assert_eq!(engine.think_next_move(), Ok(path(&[e2e4])));
}

#[test]
fn arrange_orders_and_keeps_the_last() {
    let a = normal(0, 1, 2, 0);
    let b = normal(1, 0, 2, 0);
    let c = normal(1, 0, 3, 0);
    let given = vec![
        (c, position(B, &[c], None)),
        (a, position(W, &[a], None)),
        (b, position(B, &[b], None)),
        (a, position(B, &[a], None)),
    ];
    let kids = arrange(given);
    let keys: Vec<ChessMove> = kids.iter().map(|(m, _)| *m).collect();
    assert_eq!(keys, vec![a, b, c]);
    assert_eq!(kids[0].1.board_state.get_turn(), B);
    assert!(kids.iter().all(|(_, k)| k.is_leaf()));
    assert!(arrange(Vec::new()).is_empty());
}

#[test]
fn commit_prunes_frontier() {
    let mut engine = started();
    let e2e4 = normal(1, 4, 3, 4);
    assert_eq!(engine.frontier_len(), 20);
    // The new root has no children: its moves are awaited.
    assert_eq!(engine.make_move(&e2e4), Ok(true));
    assert_eq!(engine.get_board().get_turn(), B);
    assert!(engine.get_board().get_piece(1, 4).unwrap().is_none());
    assert_eq!(
        engine.get_board().get_piece(3, 4).unwrap(),
        Some(Piece { kind: PieceKind::Pawn, color: W })
    );
    // Every expansion stood at the root, so none is left.
    assert_eq!(engine.frontier_len(), 0);
    assert_eq!(engine.awaited_len(), 1);
    assert!(engine.is_awaited(&path(&[])));
    assert_eq!(engine.generate_all_moves(&path(&[]), children(W, &[e2e4], &black_moves())), Ok(()));
    assert_eq!(engine.get_tree().moves.len(), 20);
    assert_eq!(engine.frontier_len(), 20);
    assert_eq!(engine.awaited_len(), 0);
}

#[test]
fn commit_keeps_what_lies_below_the_move() {
    let mut engine = started();
    let g1h3 = normal(0, 6, 2, 7);
    let g1f3 = normal(0, 6, 2, 5);
    assert_eq!(engine.think_next_move(), Ok(path(&[g1h3])));
    engine.generate_all_moves(&path(&[g1h3]), children(W, &[g1h3], &black_moves())).unwrap();
    assert_eq!(engine.think_next_move(), Ok(path(&[g1f3])));
    engine.generate_all_moves(&path(&[g1f3]), children(W, &[g1f3], &black_moves())).unwrap();
    assert_eq!(engine.frontier_len(), 58);
    assert_eq!(engine.make_move(&g1h3), Ok(false));
    // The twenty replies to g1h3 are left, each seen from the new root.
    assert_eq!(engine.frontier_len(), 20);
    assert_eq!(engine.awaited_len(), 0);
    assert_eq!(engine.get_tree().moves.len(), 20);
    let replies = black_moves();
    let paths = drain(&mut engine);
    assert_eq!(paths.len(), 20);
    for p in &paths {
        assert_eq!(p.len(), 1);
        assert!(replies.contains(&p[0]));
    }
}

#[test]
fn commit_keeps_awaited_paths_below_the_move() {
    let mut engine = started();
    let first = engine.think_next_move().unwrap();
    let second = engine.think_next_move().unwrap();
    assert_eq!(engine.awaited_len(), 2);
    // The committed child is awaited already: it is asked for once.
    assert_eq!(engine.make_move(&second[0]), Ok(true));
    assert_eq!(engine.awaited_len(), 1);
    assert!(engine.is_awaited(&path(&[])));
    assert!(!engine.is_awaited(&first));
    assert_eq!(engine.frontier_len(), 0);
}

#[test]
fn an_unknown_move_is_illegal() {
    let mut engine = started();
    assert_eq!(engine.make_move(&normal(6, 4, 4, 4)), Err(EngineError::IllegalMoveError));
    assert_eq!(engine.interpret_and_make_move(None), Err(EngineError::IllegalMoveError));
    assert_eq!(
        engine.interpret_and_make_move(Some(normal(1, 4, 4, 4))),
        Err(EngineError::IllegalMoveError)
    );
    assert_eq!(engine.frontier_len(), 20);
    assert_eq!(engine.get_board().get_turn(), W);
    assert_eq!(engine.interpret_and_make_move(Some(normal(1, 4, 3, 4))), Ok(true));
    assert_eq!(engine.get_board().get_turn(), B);
}

#[test]
fn fools_mate_eval() {
    // White is mated already: the position is valued as it stands.
    let mut engine = Engine::unexpanded(
        position(W, &[], Some(GameEnd::Mated(W))),
        StaticEvaluationWeights::new(),
        InterestEvaluationWeights::new(),
        MinimaxSettings::new(),
    );
    assert_eq!(engine.eval_and_best_move(), (Eval::MateIn(B, 0), None));
    assert_eq!(engine.generate_all_moves(&path(&[]), Vec::new()), Ok(()));
    assert_eq!(engine.eval_and_best_move(), (Eval::MateIn(B, 0), None));
    assert_eq!(engine.think_next_move(), Err(EngineError::NoValidMovesErrror));
}

#[test]
fn single_move_mate_choice() {
    let mut engine = engine();
    let mating = normal(1, 5, 3, 5);
    let given: Vec<(ChessMove, Board)> = white_moves()
        .into_iter()
        .map(|m| {
            let end = if m == mating { Some(GameEnd::Mated(B)) } else { None };
            (m, position(B, &[m], end))
        })
        .collect();
    engine.generate_all_moves(&path(&[]), given).unwrap();
    let next = engine.think_next_move().unwrap();
    assert_eq!(next, path(&[mating]));
    engine.generate_all_moves(&next, Vec::new()).unwrap();
    assert_eq!(engine.eval_and_best_move(), (Eval::MateIn(W, 1), Some(mating)));
}

#[test]
fn minimax_returns_a_move_of_the_root() {
    let engine = started();
    let (eval, best) = engine.eval_and_best_move();
    // Every child is a leaf above the least depth: its score does not count.
    assert_eq!(eval, Eval::Numeric(Score::NegInf));
    // Of equal values the first in the order of moves is kept.
    assert_eq!(best, Some(normal(0, 1, 2, 0)));
    assert!(white_moves().contains(&best.unwrap()));
    let bare = self::engine();
    assert_eq!(bare.eval_and_best_move(), (Eval::Numeric(Score::PosInf), None));
}

fn leaf(turn: Color, extra: &[(usize, PieceKind, Color)], end: Option<GameEnd>) -> MoveTree {
    let mut squares: Vec<Option<Piece>> = vec![None; 64];
    for (at, kind, color) in extra {
        squares[*at] = Some(Piece { kind: *kind, color: *color });
    }
    let check = match end {
        Some(GameEnd::Mated(color)) => Some(color),
        _ => None,
    };
    MoveTree::new(Board::from_parts(squares, vec![Vec::new(); 64], turn, check, end).unwrap())
}

fn node(turn: Color, kids: Vec<(ChessMove, MoveTree)>) -> MoveTree {
    let mut tree = leaf(turn, &[], None);
    tree.moves = kids;
    tree
}

#[test]
fn minimax_takes_the_best_for_each_side() {
    let w = StaticEvaluationWeights::new();
    let a = normal(0, 0, 0, 1);
    let b = normal(0, 0, 0, 2);
    let c = normal(0, 0, 0, 3);
    let queen = |color| leaf(W, &[(0, PieceKind::Queen, color)], None);
    let rook = |color| leaf(W, &[(0, PieceKind::Rook, color)], None);
    // Black chooses at the inner nodes, White at the root.
    let tree = node(
        W,
        vec![
            (a, node(B, vec![(a, queen(W)), (b, rook(B))])),
            (b, node(B, vec![(a, rook(W)), (b, queen(W))])),
            (c, node(B, vec![(a, rook(W)), (b, leaf(W, &[], None))])),
        ],
    );
    assert_eq!(minimax(&w, &tree, 0, 2, 1000, true), (Eval::Numeric(Score::Finite(5_000)), Some(b)));
    assert_eq!(minimax(&w, &tree, 0, 2, 1000, false), (Eval::Numeric(Score::Finite(5_000)), Some(c)));
    assert_eq!(minimax(&w, &tree.moves[0].1, 1, 2, 1000, false), (Eval::Numeric(Score::Finite(-5_000)), Some(b)));
    // At the greatest depth the position counts as it stands.
    assert_eq!(minimax(&w, &tree, 0, 0, 0, true), (Eval::Numeric(Score::Finite(0)), None));
    assert_eq!(
        minimax(&w, &tree, 0, 0, 1, true),
        (Eval::Numeric(Score::Finite(0)), Some(a))
    );
    // Above the least depth a score gives way to the infinity of the side.
    assert_eq!(minimax(&w, &tree, 0, 3, 1000, true), (Eval::Numeric(Score::PosInf), Some(a)));
    assert_eq!(minimax(&w, &tree, 5, 6, 5, false), (Eval::Numeric(Score::NegInf), None));
}

#[test]
fn minimax_counts_the_moves_to_a_mate() {
    let w = StaticEvaluationWeights::new();
    let a = normal(0, 0, 0, 1);
    let b = normal(0, 0, 0, 2);
    let mated = |color| leaf(W, &[], Some(GameEnd::Mated(color)));
    let quiet = || leaf(W, &[(0, PieceKind::Queen, B)], None);
    let soon = node(B, vec![(a, mated(B))]);
    let late = node(B, vec![(a, node(W, vec![(a, node(B, vec![(b, mated(B))]))]))]);
    let tree = node(W, vec![(a, late), (b, soon)]);
    assert_eq!(minimax(&w, &tree, 0, 0, 1000, true), (Eval::MateIn(W, 2), Some(b)));
    let lost = node(W, vec![(a, node(B, vec![(a, mated(W))])), (b, node(B, vec![(b, quiet()), (a, mated(W))]))]);
    assert_eq!(minimax(&w, &lost, 0, 0, 1000, true), (Eval::MateIn(B, 2), Some(a)));
    // A mate counts above the least depth too.
    assert_eq!(minimax(&w, &tree, 0, 9, 1000, true), (Eval::MateIn(W, 2), Some(b)));
    // Black likes the later mate by White better.
    assert_eq!(minimax(&w, &tree, 0, 0, 1000, false), (Eval::MateIn(W, 4), Some(a)));
}

#[test]
fn pick_best_does_not_depend_on_the_order() {
    let a = normal(0, 0, 0, 1);
    let b = normal(0, 0, 0, 2);
    let c = normal(0, 0, 0, 3);
    let evals = vec![
        (Eval::Numeric(Score::Finite(3)), a),
        (Eval::MateIn(W, 4), b),
        (Eval::MateIn(B, 2), c),
    ];
    let orders = [[0, 1, 2], [0, 2, 1], [1, 0, 2], [1, 2, 0], [2, 0, 1], [2, 1, 0]];
    for order in orders {
        let list: Vec<(Eval, ChessMove)> = order.iter().map(|i| evals[*i]).collect();
        assert_eq!(pick_best(&list, true), (Eval::MateIn(W, 4), Some(b)));
        assert_eq!(pick_best(&list, false), (Eval::MateIn(B, 2), Some(c)));
    }
    assert_eq!(pick_best(&Vec::new(), true), (Eval::MateIn(B, -1), None));
    assert_eq!(pick_best(&Vec::new(), false), (Eval::MateIn(W, -1), None));
    let tie = vec![(Eval::Numeric(Score::Finite(1)), b), (Eval::Numeric(Score::Finite(1)), a)];
    assert_eq!(pick_best(&tie, true), (Eval::Numeric(Score::Finite(1)), Some(b)));
}

#[test]
fn frontier_names_leaves_after_many_operations() {
    let mut engine = started();
    let mut played: Vec<ChessMove> = Vec::new();
    for round in 0..6 {
        let turn_after = if (played.len() + round) % 2 == 0 { W } else { B };
        let next = match engine.think_next_move() {
            Ok(next) => next,
            Err(_) => break,
        };
        // The node named exists and has no children.
        let mut node = engine.get_tree();
        for m in &next {
            node = &node.moves.iter().find(|(k, _)| k == m).unwrap().1;
        }
        assert!(node.is_leaf());
        let mut line = played.clone();
        line.extend(next.iter());
        let replies = if node.board_state.get_turn() == W { white_moves() } else { black_moves() };
        let given: Vec<(ChessMove, Board)> = replies
            .iter()
            .filter(|m| match m {
                ChessMove::Normal(n) => node
                    .board_state
                    .get_piece(n.initial_row, n.initial_col)
                    .unwrap()
                    .is_some(),
                _ => false,
            })
            .map(|m| {
                let mut l = line.clone();
                l.push(*m);
                (*m, position(turn_after, &l, None))
            })
            .collect();
        let count = given.len();
        let before = engine.frontier_len();
        engine.generate_all_moves(&next, given).unwrap();
        assert_eq!(engine.frontier_len(), before + count);
        if round == 3 {
            let m = next[0];
            assert!(engine.make_move(&m).is_ok());
            played.push(m);
        }
    }
    // Every expansion that is left names a node without children, and no two
    // name the same.
    let paths = drain(&mut engine);
    for (i, p) in paths.iter().enumerate() {
        let mut node = engine.get_tree();
        for m in p {
            node = &node.moves.iter().find(|(k, _)| k == m).unwrap().1;
        }
        assert!(node.is_leaf());
        assert!(!paths[..i].contains(p));
    }
}

#[test]
fn print_tree_lists_moves_with_their_depth() {
    let a = normal(0, 0, 0, 1);
    let b = normal(0, 0, 0, 2);
    let tree = node(
        W,
        vec![
            (a, node(B, vec![(a, leaf(W, &[], None)), (b, node(W, vec![(a, leaf(B, &[], None))]))])),
            (b, leaf(B, &[], None)),
        ],
    );
    assert_eq!(tree.print_tree(0, 10), vec![(0, a), (1, a), (1, b), (2, a), (0, b)]);
    assert_eq!(tree.print_tree(0, 1), vec![(0, a), (1, a), (1, b), (0, b)]);
    assert_eq!(tree.print_tree(0, 0), vec![(0, a), (0, b)]);
    assert_eq!(tree.print_tree(1, 0), vec![]);
    assert_eq!(tree.print_tree(5, 5), vec![(5, a), (5, b)]);
    assert_eq!(tree.print_tree(i32::MAX, i32::MAX), vec![(i32::MAX, a), (i32::MAX, b)]);
    let engine = started();
    assert_eq!(engine.print_tree(3).len(), 20);
    assert_eq!(engine.print_tree(-1).len(), 0);
}

#[test]
fn print_moves_lists_the_frontier_in_order() {
    let mut engine = started();
    let listed: Vec<ChessMove> =
        engine.print_moves().iter().map(|e| e.valued_move.chess_move).collect();
    assert_eq!(listed.len(), 20);
    assert_eq!(engine.frontier_len(), 20);
    let popped: Vec<ChessMove> = drain(&mut engine).iter().map(|p| p[0]).collect();
    assert_eq!(listed, popped);
}

#[test]
fn the_order_of_expansions_does_not_matter() {
    let first = path(&[normal(0, 6, 2, 7)]);
    let second = path(&[normal(0, 6, 2, 5)]);
    let run = |swap: bool| {
        let mut engine = started();
        assert_eq!(engine.think_next_move().unwrap(), first);
        assert_eq!(engine.think_next_move().unwrap(), second);
        let order = if swap { [&second, &first] } else { [&first, &second] };
        for at in order {
            engine.generate_all_moves(at, children(W, &[at[0]], &black_moves())).unwrap();
        }
        let tree = engine.print_tree(10);
        let moves: Vec<(Score, ChessMove, VecDeque<ChessMove>, i32)> = engine
            .print_moves()
            .into_iter()
            .map(|e| (e.valued_move.value, e.valued_move.chess_move, e.location, e.depth_cost))
            .collect();
        (tree, moves, engine.awaited_len())
    };
    assert_eq!(run(false), run(true));
}

fn tried(m: ChessMove, legal: bool) -> Tried {
    Tried { chess_move: m, outcome: if legal { Some(position(B, &[m], None)) } else { None } }
}

#[test]
fn gather_keeps_the_legal_moves_square_after_square() {
    let a = normal(1, 0, 2, 0);
    let b = normal(1, 0, 3, 0);
    let c = normal(1, 1, 2, 1);
    let d = normal(0, 1, 2, 2);
    let answers = vec![
        Err(BoardError::NoPieceError),
        Ok(vec![tried(a, true), tried(b, false)]),
        Err(BoardError::WrongTurnError),
        Ok(vec![]),
        Ok(vec![tried(c, false), tried(d, true), tried(a, true)]),
    ];
    let children = gather(answers).unwrap();
    let moves: Vec<ChessMove> = children.iter().map(|(m, _)| *m).collect();
    assert_eq!(moves, vec![a, d, a]);
    for (m, board) in &children {
        if let ChessMove::Normal(n) = m {
            assert!(board.get_piece(n.destination_row, n.destination_col).unwrap().is_some());
        }
    }
    assert!(gather(Vec::new()).unwrap().is_empty());
}

#[test]
fn gather_stops_at_the_first_other_error() {
    let a = normal(1, 0, 2, 0);
    for (first, second) in [
        (BoardError::OutOfBoundsError, BoardError::UndefinedScoreError),
        (BoardError::UndefinedScoreError, BoardError::OutOfBoundsError),
    ] {
        let answers = vec![
            Ok(vec![tried(a, true)]),
            Err(BoardError::WrongTurnError),
            Err(first),
            Ok(vec![tried(a, true)]),
            Err(second),
        ];
        assert_eq!(gather(answers).err(), Some(first));
    }
}

#[test]
fn gathered_children_grow_the_tree() {
    let mut engine = engine();
    let mut answers: Vec<Result<Vec<Tried>, BoardError>> = Vec::new();
    for row in 0..8 {
        for col in 0..8 {
            let from_here: Vec<Tried> = white_moves()
                .into_iter()
                .filter(|m| matches!(m, ChessMove::Normal(n) if n.initial_row == row && n.initial_col == col))
                .map(|m| tried(m, true))
                .collect();
            answers.push(match engine.get_board().get_piece(row, col).unwrap() {
                None => Err(BoardError::NoPieceError),
                Some(piece) if piece.color != W => Err(BoardError::WrongTurnError),
                Some(_) => Ok(from_here),
            });
        }
    }
    engine.generate_all_moves(&path(&[]), gather(answers).unwrap()).unwrap();
    assert_eq!(engine.get_tree().moves.len(), 20);
    assert_eq!(engine.frontier_len(), 20);
}

fn inner_nodes(tree: &MoveTree) -> usize {
    if tree.is_leaf() {
        0
    } else {
        1 + tree.moves.iter().map(|(_, child)| inner_nodes(child)).sum::<usize>()
    }
}

#[test]
fn each_expansion_adds_one_node_with_children() {
    let mut engine = started();
    assert_eq!(inner_nodes(engine.get_tree()), 1);
    for k in 1..=5 {
        let next = engine.think_next_move().unwrap();
        let replies = if next.len() % 2 == 1 { black_moves() } else { white_moves() };
        let turn_after = if next.len() % 2 == 1 { W } else { B };
        let line: Vec<ChessMove> = next.iter().copied().collect();
        engine.generate_all_moves(&next, children(turn_after, &line, &replies[..3])).unwrap();
        assert_eq!(inner_nodes(engine.get_tree()), k + 1);
    }
    // A node that is given no children stays without.
    let next = engine.think_next_move().unwrap();
    engine.generate_all_moves(&next, Vec::new()).unwrap();
    assert_eq!(inner_nodes(engine.get_tree()), 6);
}
