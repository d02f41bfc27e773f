use iridium::config::ConfigError;
use iridium::connectfour::{C4Move, Connect4};
use iridium::fixed::{isqrt, ln_fixed, log2_fixed};
use iridium::error::SearchError;
use iridium::game::{outcome, Game};
use iridium::matchplay::{player_to_move, MatchTally};
use iridium::tree::SearchTree;
use iridium::gomoku::{Gomoku, Move};
use iridium::iterbits::{BitIterable, IterBits};
use iridium::mcts::{Behaviour, Limit, sample_index, DEFAULT_EXP_FACTOR};
use iridium::rollout::{
    decay_factor, decisive_result, decisive_rollout_counted, push_random, quality_scale, random_rollout_cutoff, simulate,
    RolloutPolicy,
};
use iridium::select::{exploit_exec, puct_value, ucb1_value, Selection, UNVISITED};
use iridium::tictactoe::{TTTMoveBuf, TicTacToe, TicTacToeMove};
use iridium::tree::{Q_ONE, VALUE_ONE};

#[test]
fn parses_rollout_limit_and_cutoff() {
    let b = Behaviour::parse("limit=rollouts:50,rollout_policy=random_cutoff.10").unwrap();
    assert!(matches!(b.limit, Limit::Rollouts(50)));
    assert!(matches!(b.rollout_policy, RolloutPolicy::RandomCutoff { moves: 10 }));
    assert!(!b.readout && !b.debug && !b.training);
    assert_eq!(b.exp_factor, DEFAULT_EXP_FACTOR);
    assert_eq!(b.selection, Selection::Puct);
}

#[test]
fn parses_time_limit_and_meta_policy() {
    let b: Behaviour = "limit=time:1000,rollout_policy=meta_aggregated.decisive.10".parse().unwrap();
    assert!(matches!(b.limit, Limit::Time(1000)));
    match b.rollout_policy {
        RolloutPolicy::MetaAggregated { policy, rollouts } => {
            assert!(matches!(*policy, RolloutPolicy::Decisive));
            assert_eq!(rollouts, 10);
        }
        other => panic!("unexpected {other:?}"),
    }
}

#[test]
fn parses_every_policy_name() {
    assert!(matches!(RolloutPolicy::parse("random"), Ok(RolloutPolicy::Random)));
    assert!(matches!(RolloutPolicy::parse("decisive"), Ok(RolloutPolicy::Decisive)));
    assert!(matches!(RolloutPolicy::parse("random_quality_scaled"), Ok(RolloutPolicy::RandomQualityScaled)));
    assert!(matches!(RolloutPolicy::parse("decisive_quality_scaled"), Ok(RolloutPolicy::DecisiveQualityScaled)));
    assert!(matches!(RolloutPolicy::parse("decisive_cutoff.+7"), Ok(RolloutPolicy::DecisiveCutoff { moves: 7 })));
}

#[test]
fn refuses_malformed_configurations() {
    assert_eq!(Behaviour::parse("limit=rollouts:50").err(), Some(ConfigError::Layout));
    assert_eq!(Behaviour::parse("rollout_policy=random,limit=rollouts:5").err(), Some(ConfigError::Layout));
    assert_eq!(Behaviour::parse("limit=nodes:5,rollout_policy=random").err(), Some(ConfigError::Limit));
    assert_eq!(Behaviour::parse("limit=rollouts:4294967296,rollout_policy=random").err(), Some(ConfigError::Limit));
    assert_eq!(Behaviour::parse("limit=rollouts:,rollout_policy=random").err(), Some(ConfigError::Limit));
    assert_eq!(Behaviour::parse("limit=rollouts:5,rollout_policy=greedy").err(), Some(ConfigError::Policy));
    assert_eq!(RolloutPolicy::parse("random_cutoff").err(), Some(ConfigError::Policy));
    assert_eq!(RolloutPolicy::parse("random_cutoffX.3").err(), Some(ConfigError::Policy));
    assert_eq!(RolloutPolicy::parse("decisive_cutoff_.3").err(), Some(ConfigError::Policy));
    assert_eq!(RolloutPolicy::parse("meta_aggregatedX.random.3").err(), Some(ConfigError::Policy));
    assert_eq!(RolloutPolicy::parse("meta_aggregated.random_cutoff.5.10").err(), Some(ConfigError::Policy));
    assert_eq!(RolloutPolicy::parse("meta_aggregated.random_cutoff.5").err(), Some(ConfigError::Policy));
    assert_eq!(RolloutPolicy::parse("meta_aggregated.meta_aggregated.5").err(), Some(ConfigError::Policy));
    assert_eq!(RolloutPolicy::parse("meta_aggregated.random").err(), Some(ConfigError::Policy));
    assert!(!ConfigError::Policy.message().is_empty());
}

#[test]
fn quality_scaling_values() {
    assert_eq!(decay_factor(0), Q_ONE);
    assert_eq!(decay_factor(1), 960_789);
    assert_eq!(decay_factor(2), 923_115);
    assert_eq!(quality_scale(Q_ONE, 0), Q_ONE);
    assert_eq!(quality_scale(-Q_ONE, 2), -923_115);
    assert_eq!(quality_scale(0, 5), 0);
    let mut prev = Q_ONE;
    for k in 0..200 {
        let d = quality_scale(Q_ONE, k);
        assert!(d <= prev && d >= 0);
        prev = d;
    }
}

#[test]
fn fixed_point_arithmetic() {
    assert_eq!(isqrt(0), 0);
    assert_eq!(isqrt(15), 3);
    assert_eq!(isqrt(16), 4);
    assert_eq!(isqrt(u64::MAX), 4_294_967_295);
    assert_eq!(log2_fixed(8), 196_608);
    assert_eq!(log2_fixed(12), 229_376);
    assert_eq!(ln_fixed(1), 0);
    assert_eq!(ln_fixed(8), 136_278);
}

#[test]
fn selection_scores() {
    assert_eq!(ucb1_value(10, 0, 0, DEFAULT_EXP_FACTOR), UNVISITED);
    assert_eq!(ucb1_value(10, 3 * VALUE_ONE, 5, DEFAULT_EXP_FACTOR), 101_530);
    assert_eq!(puct_value(10, 3 * VALUE_ONE, 5, 1, 2), 73_737);
    assert_eq!(puct_value(10, 0, 0, 1, 2), UNVISITED);
    assert_eq!(exploit_exec(-5, 1), -1);
    assert_eq!(exploit_exec(VALUE_ONE, 1), 65_536);
}

#[test]
fn training_sample_index() {
    let dist = vec![1u32, 3];
    assert_eq!(sample_index(&dist, 0), 0);
    assert_eq!(sample_index(&dist, 25), 0);
    assert_eq!(sample_index(&dist, 26), 1);
    assert_eq!(sample_index(&dist, 79), 1);
    let zero = vec![0u32, 0, 0];
    assert_eq!(sample_index(&zero, 2), 2);
}

#[test]
fn iterates_bits_lowest_first() {
    let mut it = 0b1011u8.iter_bits();
    assert_eq!(it.remaining(), 3);
    assert_eq!(it.next(), Some(0));
    assert_eq!(it.next(), Some(1));
    assert_eq!(it.next(), Some(3));
    assert_eq!(it.next(), None);
    assert_eq!(IterBits::new(1 << 63).next(), Some(63));
}

#[test]
fn tictactoe_rules() {
    let mut s = TicTacToe::new();
    assert_eq!(s.turn(), 1);
    assert_eq!(s.generate_moves().len(), 9);
    assert_eq!(s.char_at(0, 0), '.');
    for m in [1, 0, 2, 3, 5] {
        assert!(!s.is_terminal());
        s.push(TicTacToeMove::new(m));
    }
    assert_eq!(s.char_at(1, 0), 'X');
    assert_eq!(s.char_at(0, 0), 'O');
    assert!(s.pos_filled(3) && s.player_at(5) && !s.player_at(0));
    assert!(!s.is_terminal());
    s.push(TicTacToeMove::new(6));
    assert_eq!(s.evaluate(), -1);
    assert!(s.is_terminal());
    assert!(s.probe_spot(6));
    let v = s.vectorise_state();
    assert_eq!(v.data.len(), 18);
    assert_eq!(&v.data[0..2], &[1, 0]);
    assert_eq!(&v.data[2..4], &[0, 1]);
    let mut buf = TTTMoveBuf::new();
    buf.push(TicTacToeMove::new(3));
    assert_eq!(buf.len(), 1);
    assert_eq!(buf.get(0), TicTacToeMove::new(3));
    assert_eq!(buf.capacity(), 9);
}

#[test]
fn tictactoe_ignores_an_occupied_square() {
    let mut s = TicTacToe::new();
    s.push(TicTacToeMove::new(4));
    let before = s.clone();
    s.push(TicTacToeMove::new(4));
    assert_eq!(s, before);
}

#[test]
fn connect4_stones_drop_and_four_wins() {
    let mut s = Connect4::new();
    for c in [3, 3, 4, 4, 5, 5] {
        s.push(C4Move(c));
    }
    assert_eq!(s.player_at(5, 3), 1);
    assert_eq!(s.player_at(4, 3), -1);
    assert!(s.filled(5, 5) && !s.filled(3, 5));
    assert_eq!(s.evaluate(), 0);
    s.push(C4Move(6));
    assert_eq!(s.horizontal_eval(), 1);
    assert_eq!(s.evaluate(), 1);
    assert!(s.is_terminal());
    assert_eq!(s.vectorise_state().data.len(), 84);
}

#[test]
fn connect4_vertical_and_full_column() {
    let mut s = Connect4::new();
    for c in [0, 1, 0, 1, 0, 1, 0] {
        s.push(C4Move(c));
    }
    assert_eq!(s.vertical_eval(), 1);
    let mut t = Connect4::new();
    for _ in 0..6 {
        t.push(C4Move(2));
    }
    assert!(!t.generate_moves().contains(&C4Move(2)));
    let before = t.clone();
    t.push(C4Move(2));
    assert_eq!(t, before);
}

#[test]
fn gomoku_five_through_the_last_move() {
    let mut s = Gomoku::new(9);
    for (x, o) in [(0, 9), (1, 10), (2, 11), (3, 12)] {
        s.push(Move::new(x));
        s.push(Move::new(o));
    }
    assert_eq!(s.evaluate(), 0);
    s.push(Move::new(4));
    assert_eq!(s.evaluate(), 1);
    assert!(s.is_terminal());
    assert_eq!(Move::new(40).row(9), 4);
    assert_eq!(Move::new(41).col(9), 5);
    assert_eq!(s.policy(Move::new(13)), 3);
    assert_eq!(s.policy(Move::new(80)), 1);
}

#[test]
fn random_move_is_legal() {
    let mut rng = fastrand::Rng::with_seed(8);
    let mut s = TicTacToe::new();
    push_random(&mut s, &mut rng);
    assert_eq!(s.generate_moves().len(), 8);
    assert_eq!(s.turn(), -1);
}

#[test]
fn outcome_names_the_result() {
    let mut s = TicTacToe::new();
    assert_eq!(outcome(&s), None);
    for m in [0, 3, 1, 4, 2] {
        s.push(TicTacToeMove::new(m));
    }
    assert_eq!(outcome(&s), Some("1-0"));
    let mut d = TicTacToe::new();
    for m in [0, 1, 2, 4, 3, 5, 7, 6, 8] {
        d.push(TicTacToeMove::new(m));
    }
    assert_eq!(d.evaluate(), 0);
    assert_eq!(outcome(&d), Some("1/2-1/2"));
}

#[test]
fn random_child_lies_in_the_child_range() {
    let mut t = SearchTree::<TicTacToeMove>::with_capacity(100);
    t.setup(1, TicTacToeMove::new(9));
    let moves = vec![TicTacToeMove::new(0), TicTacToeMove::new(1), TicTacToeMove::new(2)];
    t.expand(0, &moves).unwrap();
    let mut rng = fastrand::Rng::with_seed(3);
    let mut seen = [false; 3];
    for _ in 0..200 {
        let c = t.root().random_child(&mut rng);
        assert!((1..4).contains(&c));
        seen[c - 1] = true;
    }
    assert!(seen.iter().all(|&x| x));
    assert_eq!(t.expand(0, &moves), Err(SearchError::AlreadyExpanded));
}

#[test]
fn match_tally_counts_from_the_first_player() {
    let mut t = MatchTally::new();
    t.record(1, false);
    t.record(1, true);
    t.record(0, true);
    t.record(-1, true);
    assert_eq!((t.wins, t.draws, t.losses), (2, 1, 1));
    assert_eq!((t.first_mover_wins, t.second_mover_wins), (2, 1));
    assert_eq!(player_to_move(1, false), 0);
    assert_eq!(player_to_move(1, true), 1);
    assert_eq!(player_to_move(-1, true), 0);
}

#[test]
fn game_preferences_build_a_configuration() {
    let b = Behaviour::for_game::<Connect4>();
    assert!(matches!(b.rollout_policy, RolloutPolicy::Random));
    assert_eq!(b.root_parallelism_count, 1);
    let c = b.duplicate();
    assert_eq!(c.limit, b.limit);
    assert!(matches!(Behaviour::default().limit, Limit::Time(15_000)));
    let _ = Gomoku::new(9);
}

#[test]
fn cutoff_rollout_stops_at_the_limit() {
    let mut rng = fastrand::Rng::with_seed(1);
    let mut s = TicTacToe::new();
    let (q, played) = random_rollout_cutoff(&mut s, &mut rng, 2, true);
    assert_eq!((q, played), (0, 2));
    assert!(!s.is_terminal());
    assert_eq!(s.generate_moves().len(), 7);
    let mut t = TicTacToe::new();
    let (q, played) = random_rollout_cutoff(&mut t, &mut rng, 0, false);
    assert!(t.is_terminal());
    assert_eq!(q, t.evaluate() as i64 * Q_ONE);
    assert!(played >= 5);
}

#[test]
fn decisive_rollout_takes_the_win() {
    // X on 0 and 1, O on 3 and 4, X to move: X wins on 2 at once.
    let mut s = TicTacToe::new();
    for m in [0, 3, 1, 4] {
        s.push(TicTacToeMove::new(m));
    }
    let before = s.clone();
    let mut rng = fastrand::Rng::with_seed(2);
    let (q, played) = decisive_rollout_counted(&mut s, &mut rng, 0, false);
    assert_eq!((q, played), (Q_ONE, 1));
    assert_eq!(s, before);
}

#[test]
fn meta_aggregated_leaves_the_state() {
    let mut rng = fastrand::Rng::with_seed(3);
    let mut s = TicTacToe::new();
    s.push(TicTacToeMove::new(4));
    let before = s.clone();
    let policy = RolloutPolicy::MetaAggregated { policy: Box::new(RolloutPolicy::Random), rollouts: 5 };
    let q = simulate(&policy, &mut s, &mut rng);
    assert_eq!(s, before);
    assert!((-Q_ONE..=Q_ONE).contains(&q));
    let mut t = TicTacToe::new();
    let q = simulate(&RolloutPolicy::RandomQualityScaled, &mut t, &mut rng);
    assert!(t.is_terminal());
    assert!(q.abs() < Q_ONE || q == 0);
}

#[test]
fn first_deciding_move_decides() {
    // X on 0 and 1 (wins on 2); O on 3 and 4 (would win on 5); X to move.
    let mut s = TicTacToe::new();
    for m in [0, 3, 1, 4] {
        s.push(TicTacToeMove::new(m));
    }
    let moves = s.generate_moves();
    assert_eq!(decisive_result(&s, &moves), 1);
}

#[test]
fn decisive_cutoff_counts_its_moves() {
    let mut rng = fastrand::Rng::with_seed(4);
    let mut s = TicTacToe::new();
    let (q, played) = decisive_rollout_counted(&mut s, &mut rng, 3, true);
    assert_eq!((q, played), (0, 3));
    assert_eq!(s.generate_moves().len(), 6);
}

#[test]
fn zero_priors_leave_the_value_term() {
    assert_eq!(puct_value(10, 3 * VALUE_ONE, 5, 0, 0), exploit_exec(3 * VALUE_ONE, 5));
}
