use iridium::connectfour::{C4Move, Connect4};
use iridium::error::SearchError;
use iridium::game::Game;
use iridium::gomoku::{Gomoku, Move};
use iridium::mcts::{Agent, Behaviour, Limit, MCTS};
use iridium::rollout::RolloutPolicy;
use iridium::select::Selection;
use iridium::tictactoe::{TicTacToe, TicTacToeMove};
use iridium::tree::{LOSS_SENTINEL, Q_ONE, VALUE_ONE};

const ARENA: usize = 1 << 22;

fn behaviour(rollouts: u32, policy: RolloutPolicy) -> Behaviour {
    let mut b = Behaviour::default();
    b.readout = false;
    b.limit = Limit::Rollouts(rollouts);
    b.rollout_policy = policy;
    b
}

fn ttt(moves: &[usize]) -> TicTacToe {
    let mut s = TicTacToe::new();
    for &m in moves {
        s.push(TicTacToeMove::new(m));
    }
    s
}

fn chosen_edge<G: Game>(engine: &MCTS<G>, idx: usize) -> G::Move {
    engine.tree().get(idx).unwrap().inbound_edge()
}

#[test]
fn tictactoe_empty_board_prefers_centre_or_corner() {
    let b = behaviour(10_000, RolloutPolicy::Decisive);
    let mut engine = MCTS::<TicTacToe>::with_seed(&b, ARENA, 7);
    let res = engine.search(&TicTacToe::new()).unwrap();
    let m = chosen_edge(&engine, res.new_node_idx);
    assert!([0, 2, 4, 6, 8].contains(&m.index()), "chose square {}", m.index());
    let first = engine.tree().root().children().start;
    let share = res.rollout_distribution[res.new_node_idx - first];
    assert!(share * 100 >= 15 * 10_000, "share {share}");
    assert_eq!(res.rollouts, 10_000);
}

#[test]
fn tictactoe_takes_the_winning_move() {
    // X on 0 and 1, O on 3 and 4: X to move wins on 2.
    let state = ttt(&[0, 3, 1, 4]);
    for seed in 0..5u64 {
        let b = behaviour(3_000, RolloutPolicy::Decisive);
        let mut engine = MCTS::<TicTacToe>::with_seed(&b, ARENA, seed);
        let res = engine.search(&state).unwrap();
        assert_eq!(chosen_edge(&engine, res.new_node_idx).index(), 2);
        assert_eq!(res.new_node.evaluate(), 1);
    }
}

#[test]
fn tictactoe_blocks_the_losing_square() {
    // X on 0 and 8, O on 3 and 4: X must take 5 or lose at once.
    let state = ttt(&[0, 3, 8, 4]);
    for seed in 0..5u64 {
        let b = behaviour(3_000, RolloutPolicy::Decisive);
        let mut engine = MCTS::<TicTacToe>::with_seed(&b, ARENA, seed);
        let res = engine.search(&state).unwrap();
        assert_eq!(chosen_edge(&engine, res.new_node_idx).index(), 5);
    }
}

#[test]
fn connect4_centre_column_gets_most_visits() {
    let b = behaviour(50_000, RolloutPolicy::Random);
    let mut engine = MCTS::<Connect4>::with_seed(&b, ARENA, 11);
    let res = engine.search(&Connect4::new()).unwrap();
    let best = (0..7).max_by_key(|&i| res.rollout_distribution[i]).unwrap();
    assert_eq!(best, 3, "{:?}", res.rollout_distribution);
    assert_eq!(chosen_edge(&engine, res.new_node_idx), C4Move(3));
}

#[test]
fn gomoku_reply_is_next_to_a_stone() {
    let mut state = Gomoku::new(9);
    state.push(Move::new(40));
    let b = behaviour(10_000, RolloutPolicy::Random);
    let mut engine = MCTS::<Gomoku>::with_seed(&b, ARENA, 3);
    let res = engine.search(&state).unwrap();
    assert!(engine.tree().pv_depth() >= 3);
    let m = chosen_edge(&engine, res.new_node_idx);
    assert!(state.has_neighbour(m.loc as usize), "chose {}", m.loc);
}

#[test]
fn same_seed_gives_same_results() {
    let b = behaviour(2_000, RolloutPolicy::Random);
    let state = ttt(&[4]);
    let mut first = MCTS::<TicTacToe>::with_seed(&b, ARENA, 42);
    let mut second = MCTS::<TicTacToe>::with_seed(&b, ARENA, 42);
    let r1 = first.search(&state).unwrap();
    let r2 = second.search(&state).unwrap();
    assert_eq!(r1.rollout_distribution, r2.rollout_distribution);
    assert_eq!(r1.new_node_idx, r2.new_node_idx);
    assert_eq!(r1.win_value, r2.win_value);
    assert_eq!(r1.new_node, r2.new_node);
}

#[test]
fn proven_losses_are_marked() {
    // X on 0, 2 and 6; O on 1, 3 and 4. X cannot win at once, and O wins on
    // 5 or on 7, whichever X leaves open.
    let state = ttt(&[0, 1, 2, 3, 6, 4]);
    assert_eq!(state.turn(), 1);
    let b = behaviour(2_000, RolloutPolicy::Random);
    let mut engine = MCTS::<TicTacToe>::with_seed(&b, ARENA, 5);
    let _res = engine.search(&state).unwrap();
    let tree = engine.tree();
    let range = tree.root().children();
    let marked = range.clone().filter(|&c| tree.get(c).unwrap().wins() < 0).count();
    assert!(marked >= 1);
    for c in range {
        let node = tree.get(c).unwrap();
        if node.wins() < 0 {
            assert!(node.wins() <= LOSS_SENTINEL + node.visits() as i64 * VALUE_ONE);
        }
    }
}

#[test]
fn terminal_root_is_only_counted() {
    // X wins along the top row.
    let state = ttt(&[0, 3, 1, 4, 2]);
    assert!(state.is_terminal());
    let b = behaviour(100, RolloutPolicy::Random);
    let mut engine = MCTS::<TicTacToe>::with_seed(&b, ARENA, 1);
    let res = engine.search(&state).unwrap();
    assert!(res.rollout_distribution.is_empty());
    assert_eq!(res.rollouts, 100);
    assert_eq!(res.new_node_idx, 0);
    assert_eq!(engine.tree().len(), 1);
    // The root was entered by X, who won: a full win per visit.
    assert_eq!(res.win_value, 100 * VALUE_ONE);
    assert_eq!(res.win_value, 100 * (state.evaluate() as i64 * Q_ONE + Q_ONE));
}

#[test]
fn rollout_limit_is_met_exactly() {
    for n in [1u32, 2, 17, 500] {
        let b = behaviour(n, RolloutPolicy::DecisiveQualityScaled);
        let mut engine = MCTS::<TicTacToe>::with_seed(&b, ARENA, n as u64);
        let res = engine.search(&TicTacToe::new()).unwrap();
        assert_eq!(res.rollouts, n);
        assert_eq!(res.rollout_distribution.iter().sum::<u32>(), n);
        assert_eq!(engine.tree().root().visits(), n);
    }
}

#[test]
fn tree_statistics_are_consistent() {
    let b = behaviour(3_000, RolloutPolicy::Random);
    let mut engine = MCTS::<Connect4>::with_seed(&b, ARENA, 9);
    engine.search(&Connect4::new()).unwrap();
    let tree = engine.tree();
    assert_eq!(tree.root().visits(), tree.rollouts());
    for i in 0..tree.len() {
        let node = tree.get(i).unwrap();
        let sum: u32 = node.children().map(|c| tree.get(c).unwrap().visits()).sum();
        assert!(node.visits() >= sum);
        if node.wins() >= 0 {
            assert!(node.wins() <= node.visits() as i64 * VALUE_ONE);
        }
        if let Some(p) = node.parent() {
            assert!(p < i);
            assert_eq!(node.perspective(), -tree.get(p).unwrap().perspective());
        }
    }
}

#[test]
fn unrunnable_policy_is_a_config_error() {
    let policy = RolloutPolicy::MetaAggregated {
        policy: Box::new(RolloutPolicy::RandomCutoff { moves: 3 }),
        rollouts: 2,
    };
    let b = behaviour(10, policy);
    let mut engine = MCTS::<TicTacToe>::with_seed(&b, ARENA, 1);
    assert_eq!(engine.search(&TicTacToe::new()).err(), Some(SearchError::ConfigError));
}

#[test]
fn full_arena_is_reported() {
    let b = behaviour(10, RolloutPolicy::Random);
    let mut engine = MCTS::<TicTacToe>::with_seed(&b, 5, 1);
    assert_eq!(engine.search(&TicTacToe::new()).err(), Some(SearchError::OutOfArena));
}

#[test]
fn every_policy_searches() {
    let policies = vec![
        RolloutPolicy::Random,
        RolloutPolicy::Decisive,
        RolloutPolicy::RandomQualityScaled,
        RolloutPolicy::DecisiveQualityScaled,
        RolloutPolicy::RandomCutoff { moves: 2 },
        RolloutPolicy::DecisiveCutoff { moves: 2 },
        RolloutPolicy::MetaAggregated { policy: Box::new(RolloutPolicy::Decisive), rollouts: 3 },
    ];
    for p in policies {
        let mut b = behaviour(300, p);
        b.selection = Selection::Ucb1;
        let mut engine = MCTS::<TicTacToe>::with_seed(&b, ARENA, 2);
        let res = engine.search(&TicTacToe::new()).unwrap();
        assert_eq!(res.rollouts, 300);
        assert_eq!(res.rollout_distribution.len(), 9);
    }
}

#[test]
fn training_mode_samples_a_legal_move() {
    let mut b = behaviour(500, RolloutPolicy::Random);
    b.training = true;
    let mut engine = MCTS::<TicTacToe>::with_seed(&b, ARENA, 4);
    let state = ttt(&[4]);
    let res = engine.search(&state).unwrap();
    let first = engine.tree().root().children().start;
    assert!(res.new_node_idx >= first && res.new_node_idx < first + 8);
    assert_ne!(res.new_node, state);
}

#[test]
fn time_limit_stops_the_search() {
    let mut b = behaviour(1, RolloutPolicy::Random);
    b.limit = Limit::Time(30);
    let mut engine = MCTS::<TicTacToe>::with_seed(&b, ARENA, 4);
    let res = engine.search(&TicTacToe::new()).unwrap();
    assert!(res.rollouts > 0);
}

#[test]
fn agent_plays_a_move() {
    let b = behaviour(200, RolloutPolicy::Random);
    let mut engine = MCTS::<TicTacToe>::with_seed(&b, ARENA, 4);
    let next = engine.transition(TicTacToe::new());
    assert_eq!(next.generate_moves().len(), 8);
    assert_eq!(next.turn(), -1);
}

#[test]
fn seeded_training_search_is_reproducible() {
    let mut b = behaviour(800, RolloutPolicy::Random);
    b.training = true;
    let state = ttt(&[4]);
    let mut first = MCTS::<TicTacToe>::with_seed(&b, ARENA, 77);
    let mut second = MCTS::<TicTacToe>::with_seed(&b, ARENA, 77);
    let r1 = first.search(&state).unwrap();
    let r2 = second.search(&state).unwrap();
    assert_eq!(r1.rollout_distribution, r2.rollout_distribution);
    assert_eq!(r1.new_node_idx, r2.new_node_idx);
    assert_eq!(r1.new_node, r2.new_node);
}

#[test]
fn best_next_board_plays_in_training_mode() {
    let mut b = behaviour(300, RolloutPolicy::Random);
    b.training = true;
    let mut engine = MCTS::<TicTacToe>::with_seed(&b, ARENA, 5);
    let next = engine.best_next_board(&TicTacToe::new());
    assert_eq!(next.turn(), -1);
    assert_eq!(next.generate_moves().len(), 8);
}
