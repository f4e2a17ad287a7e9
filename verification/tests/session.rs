use r2048_ai::game::{Game, State};
use r2048_ai::{Algorithm, Config, Depth};
use rand::rngs::StdRng;
use rand::SeedableRng;

fn tiles(s: &State) -> Vec<u8> {
    (0..16).map(|i| s.get(i)).filter(|&e| e != 0).collect()
}

#[test]
fn new_game_has_two_tiles() {
    for seed in 0..50 {
        let g = Game::from_rng(StdRng::seed_from_u64(seed));
        assert_eq!(0, g.moves());
        let t = tiles(g.state());
        assert_eq!(2, t.len());
        assert!(t.iter().all(|&e| e == 1 || e == 2));
    }
    let g = Game::new();
    assert_eq!(2, tiles(g.state()).len());
    assert_eq!(0, g.moves());
}

#[test]
fn same_seed_same_game() {
    let a = Game::from_rng(StdRng::seed_from_u64(3));
    let b = Game::from_rng(StdRng::seed_from_u64(3));
    assert_eq!(a.state(), b.state());
}

#[test]
fn next_state_adds_one_tile_and_counts_the_move() {
    let mut g = Game::from_rng(StdRng::seed_from_u64(1));
    let mut s = State::default();
    s.set(5, 7);
    g.next_state(s);
    assert_eq!(1, g.moves());
    assert_eq!(7, g.state().get(5));
    let mut t = tiles(g.state());
    t.sort();
    assert_eq!(2, t.len());
    assert!(t[0] == 1 || t[0] == 2);
    assert_eq!(7, t[1]);
}

#[test]
fn rand_add_fills_an_empty_cell() {
    let mut rng = StdRng::seed_from_u64(11);
    let mut s = State::default();
    for n in 1..=16 {
        let before = s;
        s.rand_add(&mut rng);
        let changed: Vec<usize> = (0..16).filter(|&i| s.get(i) != before.get(i)).collect();
        assert_eq!(1, changed.len());
        assert_eq!(0, before.get(changed[0]));
        assert!(s.get(changed[0]) == 1 || s.get(changed[0]) == 2);
        assert_eq!(16 - n, s.empty().len());
    }
}

#[test]
fn one_new_tile_in_ten_is_a_four() {
    let mut rng = StdRng::seed_from_u64(5);
    let mut fours = 0;
    let mut cells = [0u32; 16];
    for _ in 0..4000 {
        let mut s = State::default();
        s.rand_add(&mut rng);
        let i = (0..16).find(|&i| s.get(i) != 0).unwrap();
        cells[i] += 1;
        if s.get(i) == 2 {
            fours += 1;
        }
    }
    assert!(300 < fours && fours < 500, "{} fours", fours);
    assert!(cells.iter().all(|&n| 150 < n && n < 350), "{:?}", cells);
}

#[test]
fn choose_depth_is_fixed_or_smart() {
    let s = State::default();
    assert_eq!(7, Config::choose_depth(Depth::Fixed(7), &s));
    assert_eq!(0, Config::choose_depth(Depth::Fixed(0), &s));
    assert_eq!(2, Config::choose_depth(Depth::Smart, &s));
}

#[test]
fn play_turn_moves_until_the_game_is_over() {
    for algorithm in [
        Algorithm::Random,
        Algorithm::ExpectimaxSum(Depth::Fixed(1)),
        Algorithm::ExpectimaxWeight(Depth::Fixed(1)),
    ] {
        let config = Config { algorithm, target_score: Some(16) };
        let mut g = Game::from_rng(StdRng::seed_from_u64(2));
        let mut turns = 0;
        while !config.reached_target(&g) {
            let before = *g.state();
            let moves = before.legal_moves();
            let played = config.play_turn(&mut g);
            assert_eq!(!moves.is_empty(), played);
            if !played {
                assert_eq!(before, *g.state());
                break;
            }
            turns += 1;
            assert_eq!(turns, g.moves());
            // the board is one of the legal boards plus one new tile
            assert!(moves.iter().any(|(_, t)| {
                (0..16).filter(|&i| t.get(i) != g.state().get(i)).count() == 1
            }));
        }
        assert_eq!(config.won(&g), g.state().highest_tile() >= 16);
    }
}

#[test]
fn next_move_follows_the_algorithm() {
    let mut s = State::default();
    s.set(0, 1);
    let sum = Config { algorithm: Algorithm::ExpectimaxSum(Depth::Fixed(1)), target_score: None };
    let weight =
        Config { algorithm: Algorithm::ExpectimaxWeight(Depth::Smart), target_score: None };
    let random = Config { algorithm: Algorithm::Random, target_score: None };
    assert_eq!(r2048_ai::ai::expectimax_sum_move(&s, 1), sum.next_move(&s));
    assert_eq!(r2048_ai::ai::expectimax_weight_move(&s, 2), weight.next_move(&s));
    let mv = random.next_move(&s).unwrap();
    assert!(s.legal_moves().contains(&mv));
}

#[test]
fn won_compares_the_highest_tile_with_the_target() {
    let mut g = Game::from_rng(StdRng::seed_from_u64(0));
    let mut s = State::default();
    s.set(0, 11);
    g.next_state(s);
    assert_eq!(2048, g.state().highest_tile());
    assert!(Config { algorithm: Algorithm::Random, target_score: Some(2048) }.won(&g));
    assert!(Config { algorithm: Algorithm::Random, target_score: Some(1024) }.won(&g));
    assert!(!Config { algorithm: Algorithm::Random, target_score: Some(4096) }.won(&g));
    assert!(Config { algorithm: Algorithm::Random, target_score: None }.won(&g));
    assert!(Config { algorithm: Algorithm::Random, target_score: Some(2048) }.reached_target(&g));
    assert!(!Config { algorithm: Algorithm::Random, target_score: Some(1024) }.reached_target(&g));
    assert!(!Config { algorithm: Algorithm::Random, target_score: None }.reached_target(&g));
}
