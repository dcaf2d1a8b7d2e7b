use std::collections::VecDeque;
use teros_engine::chess::{CastlingType, ChessMove, Color, NormalChessMove, PieceKind};
use teros_engine::entry::{is_path_before, same_path, ValuedChessMove, ValuedMoveLocation};
use teros_engine::eval::Eval;
use teros_engine::frontier::Frontier;
use teros_engine::score::Score;

fn normal(r0: usize, c0: usize, r1: usize, c1: usize) -> ChessMove {
    ChessMove::Normal(NormalChessMove {
        initial_row: r0,
        initial_col: c0,
        destination_row: r1,
        destination_col: c1,
    })
}

fn entry(value: Score, chess_move: ChessMove, location: Vec<ChessMove>, depth_cost: i32) -> ValuedMoveLocation {
    ValuedMoveLocation {
        valued_move: ValuedChessMove { value, chess_move },
        location: VecDeque::from(location),
        depth_cost,
    }
}

#[test]
fn test_eval() {
    let _m5 = Eval::MateIn(Color::Black, 5);
    let _m1 = Eval::MateIn(Color::Black, 1);
    let m5 = Eval::MateIn(Color::White, 5);
    let m1 = Eval::MateIn(Color::White, 1);
    let one = Eval::Numeric(Score::Finite(1000));
    let _one = Eval::Numeric(Score::Finite(-1000));
    assert!(_m5 > _m1);
    assert!(m5 < m1);
    assert!(_m5 < m1);
    assert!(m5 > _m1);
    assert!(m1 > one);
    assert!(one > _one);
    assert!(_one > _m1);
}

#[test]
fn eval_order_is_total_on_samples() {
    let samples = vec![
        Eval::MateIn(Color::Black, 0),
        Eval::MateIn(Color::Black, 3),
        Eval::Numeric(Score::NegInf),
        Eval::Numeric(Score::Finite(-5)),
        Eval::Numeric(Score::Finite(0)),
        Eval::Numeric(Score::Finite(7)),
        Eval::Numeric(Score::PosInf),
        Eval::MateIn(Color::White, 9),
        Eval::MateIn(Color::White, 2),
        Eval::MateIn(Color::White, 0),
    ];
    for i in 0..samples.len() {
        for j in 0..samples.len() {
            let below = samples[i].is_below(&samples[j]);
            assert_eq!(below, i < j);
            assert_eq!(samples[i] < samples[j], i < j);
            assert_eq!(samples[i] > samples[j], i > j);
            assert_eq!(samples[i] == samples[j], i == j);
        }
    }
}

#[test]
fn mates_stand_outside_every_score() {
    for x in [Score::NegInf, Score::Finite(i64::MIN), Score::Finite(0), Score::Finite(i64::MAX), Score::PosInf] {
        for n in [0, 1, 1000, i32::MAX] {
            assert!(Eval::MateIn(Color::White, n) > Eval::Numeric(x));
            assert!(Eval::Numeric(x) > Eval::MateIn(Color::Black, n));
        }
    }
    assert!(Eval::MateIn(Color::White, 1) > Eval::MateIn(Color::White, 5));
    assert!(Eval::MateIn(Color::Black, 5) > Eval::MateIn(Color::Black, 1));
}

#[test]
fn increase_mate_counter_adds_one_to_a_mate() {
    assert_eq!(Eval::MateIn(Color::White, 0).increase_mate_counter(), Eval::MateIn(Color::White, 1));
    assert_eq!(Eval::MateIn(Color::Black, 41).increase_mate_counter(), Eval::MateIn(Color::Black, 42));
    assert_eq!(Eval::MateIn(Color::Black, -1).increase_mate_counter(), Eval::MateIn(Color::Black, 0));
}

#[test]
fn increase_mate_counter_leaves_a_score() {
    for x in [Score::NegInf, Score::Finite(-3), Score::Finite(1500), Score::PosInf] {
        assert_eq!(Eval::Numeric(x).increase_mate_counter(), Eval::Numeric(x));
    }
}

#[test]
fn score_order() {
    assert!(Score::NegInf < Score::Finite(i64::MIN));
    assert!(Score::Finite(i64::MAX) < Score::PosInf);
    assert!(Score::Finite(-1) < Score::Finite(0));
    assert!(Score::Finite(2) > Score::Finite(1));
    assert!(!(Score::PosInf < Score::PosInf));
    assert!(Score::NegInf < Score::PosInf);
    assert!(Score::Finite(3).is_finite());
    assert!(!Score::PosInf.is_finite());
    assert_eq!(Score::whole(3), Score::Finite(3000));
    assert_eq!(Score::whole(-2), Score::Finite(-2000));
}

#[test]
fn move_order_goes_by_shape_then_squares() {
    let moves = vec![
        normal(0, 0, 0, 1),
        normal(0, 0, 1, 0),
        normal(0, 1, 0, 0),
        normal(1, 0, 0, 0),
        ChessMove::Promotion(
            NormalChessMove { initial_row: 6, initial_col: 0, destination_row: 7, destination_col: 0 },
            PieceKind::Knight,
        ),
        ChessMove::Promotion(
            NormalChessMove { initial_row: 6, initial_col: 0, destination_row: 7, destination_col: 0 },
            PieceKind::Queen,
        ),
        ChessMove::Promotion(
            NormalChessMove { initial_row: 6, initial_col: 0, destination_row: 7, destination_col: 1 },
            PieceKind::Knight,
        ),
        ChessMove::Castling(CastlingType::KingSide),
        ChessMove::Castling(CastlingType::QueenSide),
    ];
    for i in 0..moves.len() {
        for j in 0..moves.len() {
            assert_eq!(moves[i].is_before(&moves[j]), i < j);
        }
    }
}

#[test]
fn path_order_goes_move_by_move() {
    let a = normal(0, 0, 0, 1);
    let b = normal(0, 0, 0, 2);
    let paths: Vec<VecDeque<ChessMove>> = vec![
        VecDeque::from(vec![]),
        VecDeque::from(vec![a]),
        VecDeque::from(vec![a, a]),
        VecDeque::from(vec![a, b]),
        VecDeque::from(vec![b]),
    ];
    for i in 0..paths.len() {
        for j in 0..paths.len() {
            assert_eq!(is_path_before(&paths[i], &paths[j]), i < j);
            assert_eq!(same_path(&paths[i], &paths[j]), i == j);
        }
    }
}

#[test]
fn value_accounted_for_distance_takes_the_depth_off() {
    let m = normal(1, 4, 3, 4);
    let deep = entry(Score::Finite(100_000), m, vec![m, m, m], 25_000);
    let shallow = entry(Score::Finite(40_000), m, vec![], 25_000);
    assert_eq!(deep.value_accounted_for_distance(), Some(25_000));
    assert_eq!(shallow.value_accounted_for_distance(), Some(40_000));
    let mate = entry(Score::PosInf, m, vec![m, m], 25_000);
    assert_eq!(mate.value_accounted_for_distance(), None);
    let far = entry(Score::Finite(i64::MIN), m, vec![m], i32::MAX);
    assert_eq!(
        far.value_accounted_for_distance(),
        Some(i64::MIN as i128 - i32::MAX as i128)
    );
}

#[test]
fn depth_cost_ordering() {
    let m = normal(1, 4, 3, 4);
    let mut frontier = Frontier::new();
    frontier.push(entry(Score::Finite(100_000), m, vec![m, m, m], 25_000));
    frontier.push(entry(Score::Finite(40_000), m, vec![], 25_000));
    assert_eq!(frontier.len(), 2);
    let first = frontier.pop().unwrap();
    assert_eq!(first.valued_move.value, Score::Finite(40_000));
    assert_eq!(first.location.len(), 0);
    let second = frontier.pop().unwrap();
    assert_eq!(second.valued_move.value, Score::Finite(100_000));
    assert_eq!(second.location.len(), 3);
    assert!(frontier.pop().is_none());
    assert!(frontier.is_empty());
}

#[test]
fn frontier_breaks_ties_by_value_move_and_location() {
    let a = normal(0, 0, 0, 1);
    let b = normal(0, 0, 0, 2);
    // All four have the effective value 10000.
    let by_value_low = entry(Score::Finite(10_000), b, vec![], 5_000);
    let by_value_high = entry(Score::Finite(15_000), a, vec![a], 5_000);
    let by_move = entry(Score::Finite(15_000), b, vec![a], 5_000);
    let by_location = entry(Score::Finite(15_000), b, vec![b], 5_000);
    assert!(by_value_low.is_below(&by_value_high));
    assert!(by_value_high.is_below(&by_move));
    assert!(by_move.is_below(&by_location));
    assert!(!by_location.is_below(&by_move));
    assert!(!by_move.is_below(&by_move.duplicate()));

    let mut frontier = Frontier::new();
    frontier.push(by_move);
    frontier.push(by_value_low);
    frontier.push(by_location);
    frontier.push(by_value_high);
    let order: Vec<(Score, ChessMove, Vec<ChessMove>)> = (0..4)
        .map(|_| {
            let e = frontier.pop().unwrap();
            (e.valued_move.value, e.valued_move.chess_move, e.location.into_iter().collect())
        })
        .collect();
    assert_eq!(
        order,
        vec![
            (Score::Finite(15_000), b, vec![b]),
            (Score::Finite(15_000), b, vec![a]),
            (Score::Finite(15_000), a, vec![a]),
            (Score::Finite(10_000), b, vec![]),
        ]
    );
}

#[test]
fn infinite_interest_comes_first_at_any_depth() {
    let a = normal(0, 0, 0, 1);
    let mut frontier = Frontier::new();
    frontier.push(entry(Score::Finite(i64::MAX), a, vec![], 0));
    frontier.push(entry(Score::PosInf, a, vec![a, a, a, a], i32::MAX));
    frontier.push(entry(Score::NegInf, a, vec![], -1000));
    assert_eq!(frontier.pop().unwrap().valued_move.value, Score::PosInf);
    assert_eq!(frontier.pop().unwrap().valued_move.value, Score::Finite(i64::MAX));
    assert_eq!(frontier.pop().unwrap().valued_move.value, Score::NegInf);
}

#[test]
fn advance_keeps_what_begins_with_the_move() {
    let a = normal(0, 0, 0, 1);
    let b = normal(0, 0, 0, 2);
    let mut frontier = Frontier::new();
    frontier.push(entry(Score::Finite(1), a, vec![], 0));
    frontier.push(entry(Score::Finite(2), a, vec![a], 0));
    frontier.push(entry(Score::Finite(3), a, vec![b], 0));
    frontier.push(entry(Score::Finite(4), b, vec![a, b], 0));
    frontier.push(entry(Score::Finite(5), b, vec![b, a], 0));
    frontier.advance(&a);
    assert_eq!(frontier.len(), 2);
    let first = frontier.pop().unwrap();
    assert_eq!(first.valued_move.value, Score::Finite(4));
    assert_eq!(first.location, VecDeque::from(vec![b]));
    let second = frontier.pop().unwrap();
    assert_eq!(second.valued_move.value, Score::Finite(2));
    assert_eq!(second.location, VecDeque::from(vec![]));
}

#[test]
fn push_all_enters_every_expansion() {
    let a = normal(0, 0, 0, 1);
    let mut frontier = Frontier::new();
    frontier.push(entry(Score::Finite(9), a, vec![], 0));
    frontier.push_all(vec![
        entry(Score::Finite(1), a, vec![a], 0),
        entry(Score::Finite(20), a, vec![a, a], 0),
    ]);
    assert_eq!(frontier.len(), 3);
    assert_eq!(frontier.pop().unwrap().valued_move.value, Score::Finite(20));
    assert_eq!(frontier.pop().unwrap().valued_move.value, Score::Finite(9));
    assert_eq!(frontier.pop().unwrap().valued_move.value, Score::Finite(1));
}

#[test]
fn a_score_reads_as_points() {
    for (x, text) in [
        (0, "0"),
        (1_000, "1"),
        (1_500, "1.5"),
        (-250, "-0.25"),
        (8_350, "8.35"),
        (1_001, "1.001"),
        (1_010, "1.01"),
        (-7, "-0.007"),
        (120_000, "120"),
        (i64::MAX, "9223372036854775.807"),
        (i64::MIN, "-9223372036854775.808"),
    ] {
        assert_eq!(Score::Finite(x).to_text(), text);
        assert_eq!(Eval::Numeric(Score::Finite(x)).to_text(), text);
    }
    assert_eq!(Score::PosInf.to_text(), "inf");
    assert_eq!(Score::NegInf.to_text(), "-inf");
}

#[test]
fn a_mate_reads_as_its_side_and_moves() {
    assert_eq!(Eval::MateIn(Color::White, 3).to_text(), "+M3");
    assert_eq!(Eval::MateIn(Color::Black, 0).to_text(), "-M0");
    assert_eq!(Eval::MateIn(Color::Black, 1000).to_text(), "-M1000");
    assert_eq!(Eval::MateIn(Color::White, -1).to_text(), "+M-1");
    assert_eq!(Eval::MateIn(Color::White, i32::MIN).to_text(), "+M-2147483648");
}

#[test]
fn in_order_lists_from_the_greatest_down() {
    let a = normal(0, 0, 0, 1);
    let mut frontier = Frontier::new();
    for x in [5, 1, 9, 3, 7, 2, 8, 6, 4, 0] {
        frontier.push(entry(Score::Finite(x), a, vec![], 0));
    }
    let listed: Vec<Score> = frontier.in_order().iter().map(|e| e.valued_move.value).collect();
    let expected: Vec<Score> = (0..10).rev().map(Score::Finite).collect();
    assert_eq!(listed, expected);
    // Listing takes nothing out.
    assert_eq!(frontier.len(), 10);
    let copy = frontier.duplicate();
    assert_eq!(copy.len(), 10);
    let popped: Vec<Score> = (0..10).map(|_| frontier.pop().unwrap().valued_move.value).collect();
    assert_eq!(popped, expected);
    assert_eq!(copy.len(), 10);
}

#[test]
fn the_heap_orders_many_expansions() {
    let a = normal(0, 0, 0, 1);
    let mut frontier = Frontier::new();
    let mut x: i64 = 12345;
    let mut values = Vec::new();
    for _ in 0..500 {
        x = (x * 1_103_515_245 + 12_345) % 2_147_483_648;
        values.push(x % 1000);
        frontier.push(entry(Score::Finite(x % 1000), a, vec![a; (x % 7) as usize], 3));
    }
    let mut last: Option<i128> = None;
    let mut count = 0;
    while let Some(e) = frontier.pop() {
        let key = e.value_accounted_for_distance().unwrap();
        if let Some(l) = last {
            assert!(key <= l);
        }
        last = Some(key);
        count += 1;
    }
    assert_eq!(count, 500);
}
